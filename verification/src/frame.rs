//! RESP frames and their wire codec.
//!
//! A frame is one self-contained unit of the wire protocol.  The codec
//! offers `check`, which walks a frame without building it and reports
//! whether the buffer holds a complete one, and `parse`, which decodes
//! the frame `check` accepted.  `into_bytes` is the serializer.
//!
//! The wire grammar, each line ending in CRLF:
//! `+text` simple, `-text` error, `:n` integer (optional sign),
//! `$n` then `n` payload bytes then CRLF for bulk (`$-1` is a legacy
//! null), `*k` then `k` nested frames for an array, and `_` for null.
use vstd::prelude::*;
use vstd::string::StringExecFns;
use vstd::utf8::{decode_utf8, encode_utf8, valid_utf8};

verus! {

/// One self-contained unit of the RESP wire protocol.
#[derive(Debug)]
pub enum Frame {
    Simple(String),
    Bulk(Vec<u8>),
    Integer(i64),
    Error(String),
    Array(Vec<Frame>),
    Null,
}

/// Failure of the codec: the buffer is short of a full frame, or the
/// bytes break the grammar.
#[derive(Debug)]
pub enum Error {
    Incomplete,
    Other(String),
}

/// The abstract value of a frame: texts as character sequences,
/// payloads as byte sequences, arrays as sequences of abstract frames.
pub enum FrameData {
    Simple(Seq<char>),
    Bulk(Seq<u8>),
    Integer(int),
    Error(Seq<char>),
    Array(Seq<FrameData>),
    Null,
}

/// What a slice of bytes holds at its start: a complete frame and the
/// count of bytes it occupies, too few bytes to tell, or a grammar
/// violation.
pub enum Parsed {
    Frame(FrameData, nat),
    Incomplete,
    Malformed,
}

/// Outcome of reading a run of consecutive frames.
pub enum ParsedItems {
    Items(Seq<FrameData>, nat),
    Incomplete,
    Malformed,
}

/// The characters that `String::from_utf8_lossy` yields for an invalid
/// UTF-8 byte sequence.  Valid sequences are decoded by `decode_utf8`
/// instead, so nothing further is assumed of this function.
pub uninterp spec fn lossy_decode(b: Seq<u8>) -> Seq<char>;

/// The text a protocol line decodes to: exact for valid UTF-8, the
/// replacement-character reading otherwise.
pub open spec fn lossy_text(b: Seq<u8>) -> Seq<char> {
    if valid_utf8(b) {
        decode_utf8(b)
    } else {
        lossy_decode(b)
    }
}

/// Relies on `String::from_utf8_lossy`: the characters depend on the
/// bytes alone, and a valid UTF-8 sequence decodes to exactly the
/// characters it encodes.
#[verifier::external_body]
pub fn utf8_lossy(b: &[u8]) -> (r: String)
    ensures
        r@ == lossy_decode(b@),
        valid_utf8(b@) ==> r@ == decode_utf8(b@),
{
    String::from_utf8_lossy(b).into_owned()
}

pub open spec fn is_digit(b: u8) -> bool {
    48 <= b <= 57
}

pub open spec fn all_digits(b: Seq<u8>) -> bool {
    forall|i: int| 0 <= i < b.len() ==> is_digit(#[trigger] b[i])
}

/// The number the decimal digits spell, most significant first.
pub open spec fn digits_val(b: Seq<u8>) -> nat
    decreases b.len(),
{
    if b.len() == 0 {
        0
    } else {
        digits_val(b.drop_last()) * 10 + (b.last() - 48) as nat
    }
}

/// The canonical decimal digits of `n`: no sign, no leading zero.
pub open spec fn dec_digits(n: nat) -> Seq<u8>
    decreases n,
{
    if n < 10 {
        seq![(48 + n) as u8]
    } else {
        dec_digits(n / 10) + seq![(48 + n % 10) as u8]
    }
}

/// The decimal digits of `i` with a leading minus sign when negative.
pub open spec fn int_digits(i: int) -> Seq<u8> {
    if i < 0 {
        seq![45u8] + dec_digits((-i) as nat)
    } else {
        dec_digits(i as nat)
    }
}

pub open spec fn crlf() -> Seq<u8> {
    seq![13u8, 10u8]
}

impl Frame {
    /// The abstract value of this frame.
    pub open spec fn data(self) -> FrameData
        decreases self,
    {
        match self {
            Frame::Simple(s) => FrameData::Simple(s@),
            Frame::Bulk(b) => FrameData::Bulk(b@),
            Frame::Integer(i) => FrameData::Integer(i as int),
            Frame::Error(s) => FrameData::Error(s@),
            Frame::Array(v) => FrameData::Array(frames_data(v@)),
            Frame::Null => FrameData::Null,
        }
    }
}

/// The abstract values of a sequence of frames, in order.
pub open spec fn frames_data(s: Seq<Frame>) -> Seq<FrameData>
    decreases s,
{
    if s.len() == 0 {
        Seq::empty()
    } else {
        seq![s[0].data()] + frames_data(s.drop_first())
    }
}

/// The serialized form of a frame.
pub open spec fn frame_bytes(d: FrameData) -> Seq<u8>
    decreases d,
{
    match d {
        FrameData::Simple(s) => seq![43u8] + encode_utf8(s) + crlf(),
        FrameData::Error(s) => seq![45u8] + encode_utf8(s) + crlf(),
        FrameData::Integer(i) => seq![58u8] + int_digits(i) + crlf(),
        FrameData::Bulk(b) => seq![36u8] + dec_digits(b.len()) + crlf() + b + crlf(),
        FrameData::Array(a) => seq![42u8] + dec_digits(a.len()) + crlf() + frames_bytes(a),
        FrameData::Null => seq![95u8] + crlf(),
    }
}

/// The serialized forms of a sequence of frames, concatenated.
pub open spec fn frames_bytes(a: Seq<FrameData>) -> Seq<u8>
    decreases a,
{
    if a.len() == 0 {
        Seq::empty()
    } else {
        frame_bytes(a[0]) + frames_bytes(a.drop_first())
    }
}

/// Length of the text before the first CRLF pair, if one is present.
pub open spec fn line_len(b: Seq<u8>) -> Option<nat>
    decreases b.len(),
{
    if b.len() < 2 {
        Option::None
    } else if b[0] == 13 && b[1] == 10 {
        Option::Some(0)
    } else {
        match line_len(b.drop_first()) {
            Option::Some(n) => Option::Some((n + 1) as nat),
            Option::None => Option::None,
        }
    }
}

/// The signed value a `:` line spells: an optional single `+` or `-`,
/// then at least one digit.
pub open spec fn signed_body_val(b: Seq<u8>) -> Option<int> {
    if b.len() >= 1 && (b[0] == 43 || b[0] == 45) {
        let d = b.drop_first();
        if d.len() >= 1 && all_digits(d) {
            Option::Some(
                if b[0] == 45 {
                    -(digits_val(d) as int)
                } else {
                    digits_val(d) as int
                },
            )
        } else {
            Option::None
        }
    } else if b.len() >= 1 && all_digits(b) {
        Option::Some(digits_val(b) as int)
    } else {
        Option::None
    }
}

/// The value of an integer frame's line, rejected when out of the
/// 64-bit signed range.
pub open spec fn int_line_val(b: Seq<u8>) -> Option<int> {
    match signed_body_val(b) {
        Option::Some(v) => if i64::MIN <= v <= i64::MAX {
            Option::Some(v)
        } else {
            Option::None
        },
        Option::None => Option::None,
    }
}

/// The value of an unsigned count line (a bulk length or an array
/// count): at least one digit, fitting in 64 bits.
pub open spec fn count_line_val(b: Seq<u8>) -> Option<nat> {
    if b.len() >= 1 && all_digits(b) && digits_val(b) <= u64::MAX {
        Option::Some(digits_val(b))
    } else {
        Option::None
    }
}

/// `b` without its first `n` bytes, never reading past the end.
pub open spec fn skip_at_most(b: Seq<u8>, n: nat) -> Seq<u8> {
    if n <= b.len() {
        b.skip(n as int)
    } else {
        Seq::empty()
    }
}

/// What the bytes `b` hold at their start, following the wire grammar.
pub open spec fn parse_bytes(b: Seq<u8>) -> Parsed
    decreases b.len(), 0nat,
{
    if b.len() == 0 {
        Parsed::Incomplete
    } else {
        let t = b[0];
        let rest = b.drop_first();
        if t == 43 || t == 45 {
            match line_len(rest) {
                Option::Some(n) => {
                    let text = lossy_text(rest.take(n as int));
                    Parsed::Frame(
                        if t == 43 {
                            FrameData::Simple(text)
                        } else {
                            FrameData::Error(text)
                        },
                        (n + 3) as nat,
                    )
                },
                Option::None => Parsed::Incomplete,
            }
        } else if t == 58 {
            match line_len(rest) {
                Option::Some(n) => match int_line_val(rest.take(n as int)) {
                    Option::Some(v) => Parsed::Frame(FrameData::Integer(v), (n + 3) as nat),
                    Option::None => Parsed::Malformed,
                },
                Option::None => Parsed::Incomplete,
            }
        } else if t == 36 {
            match line_len(rest) {
                Option::Some(n) => {
                    let body = rest.take(n as int);
                    if body == seq![45u8, 49u8] {
                        Parsed::Frame(FrameData::Null, (n + 3) as nat)
                    } else {
                        match count_line_val(body) {
                            Option::Some(len) => {
                                let after = skip_at_most(rest, (n + 2) as nat);
                                if after.len() < len + 2 {
                                    Parsed::Incomplete
                                } else {
                                    Parsed::Frame(
                                        FrameData::Bulk(after.take(len as int)),
                                        (n + 3 + len + 2) as nat,
                                    )
                                }
                            },
                            Option::None => Parsed::Malformed,
                        }
                    }
                },
                Option::None => Parsed::Incomplete,
            }
        } else if t == 42 {
            match line_len(rest) {
                Option::Some(n) => match count_line_val(rest.take(n as int)) {
                    Option::Some(k) => match parse_items(skip_at_most(rest, (n + 2) as nat), k) {
                        ParsedItems::Items(items, m) => Parsed::Frame(
                            FrameData::Array(items),
                            (n + 3 + m) as nat,
                        ),
                        ParsedItems::Incomplete => Parsed::Incomplete,
                        ParsedItems::Malformed => Parsed::Malformed,
                    },
                    Option::None => Parsed::Malformed,
                },
                Option::None => Parsed::Incomplete,
            }
        } else if t == 95 {
            if b.len() >= 3 {
                if b[1] == 13 && b[2] == 10 {
                    Parsed::Frame(FrameData::Null, 3)
                } else {
                    Parsed::Malformed
                }
            } else if b.len() == 2 && b[1] != 13 {
                Parsed::Malformed
            } else {
                Parsed::Incomplete
            }
        } else {
            Parsed::Malformed
        }
    }
}

/// What the bytes `b` hold at their start when `k` consecutive frames
/// are expected.
pub open spec fn parse_items(b: Seq<u8>, k: nat) -> ParsedItems
    decreases b.len(), k + 1nat,
{
    if k == 0 {
        ParsedItems::Items(Seq::empty(), 0)
    } else {
        match parse_bytes(b) {
            Parsed::Frame(d, n) => match parse_items(skip_at_most(b, n), (k - 1) as nat) {
                ParsedItems::Items(items, m) => ParsedItems::Items(
                    seq![d] + items,
                    (n + m) as nat,
                ),
                ParsedItems::Incomplete => ParsedItems::Incomplete,
                ParsedItems::Malformed => ParsedItems::Malformed,
            },
            Parsed::Incomplete => ParsedItems::Incomplete,
            Parsed::Malformed => ParsedItems::Malformed,
        }
    }
}

impl Frame {
    /// Wraps a status line in a `Simple` frame.
    pub fn into_simple(msg: &str) -> (f: Frame)
        ensures
            f is Simple,
            f->Simple_0@ == msg@,
    {
        Frame::Simple(String::from_str(msg))
    }
}

/// A CRLF pair sits at position `i`.
spec fn crlf_at(b: Seq<u8>, i: int) -> bool {
    b[i] == 13 && b[i + 1] == 10
}

/// `line_len` names the first CRLF pair, and nothing earlier is one.
proof fn lemma_line_len_char(b: Seq<u8>)
    ensures
        match line_len(b) {
            Option::Some(n) => n + 2 <= b.len() && crlf_at(b, n as int) && (forall|j: int|
                0 <= j < n ==> !crlf_at(b, j)),
            Option::None => forall|j: int| 0 <= j && j + 2 <= b.len() ==> !crlf_at(b, j),
        },
    decreases b.len(),
{
    if b.len() < 2 {
    } else if b[0] == 13 && b[1] == 10 {
    } else {
        let rest = b.drop_first();
        lemma_line_len_char(rest);
        assert(forall|j: int| 0 <= j && j + 1 < b.len() ==> rest[j] == b[j + 1]);
        match line_len(rest) {
            Option::Some(n) => {
                assert(crlf_at(rest, n as int));
                assert(crlf_at(b, n + 1 as int));
                assert forall|j: int| 0 <= j < n + 1 implies !crlf_at(b, j) by {
                    if j == 0 {
                    } else {
                        assert(!crlf_at(rest, j - 1));
                    }
                }
            },
            Option::None => {
                assert forall|j: int| 0 <= j && j + 2 <= b.len() implies !crlf_at(b, j) by {
                    if j == 0 {
                    } else {
                        assert(!crlf_at(rest, j - 1));
                    }
                }
            },
        }
    }
}

/// A CRLF pair with none before it fixes the line length.
proof fn lemma_line_len_exact(b: Seq<u8>, n: int)
    requires
        0 <= n,
        n + 2 <= b.len(),
        crlf_at(b, n),
        forall|j: int| 0 <= j < n ==> !crlf_at(b, j),
    ensures
        line_len(b) == Option::Some(n as nat),
{
    lemma_line_len_char(b);
    match line_len(b) {
        Option::Some(m) => {
            if m < n {
                assert(crlf_at(b, m as int));
            } else if m > n {
                assert(!crlf_at(b, n));
            }
        },
        Option::None => {
            assert(!crlf_at(b, n));
        },
    }
}

/// Extending the digits multiplies the value and adds the new digit.
proof fn lemma_digits_val_step(b: Seq<u8>, i: int)
    requires
        0 <= i < b.len(),
        is_digit(b[i]),
    ensures
        digits_val(b.take(i + 1)) == digits_val(b.take(i)) * 10 + (b[i] - 48),
{
    assert(b.take(i + 1).drop_last() =~= b.take(i));
    assert(b.take(i + 1).last() == b[i]);
}

/// The value of a digit string is at least the value of any prefix.
proof fn lemma_digits_val_grows(b: Seq<u8>, i: int)
    requires
        0 <= i <= b.len(),
    ensures
        digits_val(b) >= digits_val(b.take(i)),
    decreases b.len() - i,
{
    if i == b.len() {
        assert(b.take(i) =~= b);
    } else {
        assert(b.take(i + 1).drop_last() =~= b.take(i));
        assert(digits_val(b.take(i + 1)) >= digits_val(b.take(i)));
        lemma_digits_val_grows(b, i + 1);
    }
}

/// The canonical digits of `n` are digits and spell `n`.
proof fn lemma_dec_digits(n: nat)
    ensures
        dec_digits(n).len() >= 1,
        all_digits(dec_digits(n)),
        digits_val(dec_digits(n)) == n,
    decreases n,
{
    if n < 10 {
        let d = dec_digits(n);
        assert(d.len() == 1);
        assert(d.last() == (48 + n) as u8);
        assert(d.drop_last() =~= Seq::<u8>::empty());
        assert(digits_val(Seq::<u8>::empty()) == 0);
        assert(all_digits(d)) by {
            assert(d[0] == (48 + n) as u8);
        }
    } else {
        lemma_dec_digits(n / 10);
        vstd::arithmetic::div_mod::lemma_fundamental_div_mod(n as int, 10);
        let d = dec_digits(n);
        assert(d =~= dec_digits(n / 10) + seq![(48 + n % 10) as u8]);
        assert(d.drop_last() =~= dec_digits(n / 10));
        assert(d.last() == (48 + n % 10) as u8);
        assert(all_digits(d)) by {
            assert(forall|i: int|
                0 <= i < d.len() - 1 ==> d[i] == #[trigger] dec_digits(n / 10)[i]);
        }
        assert(digits_val(d) == (n / 10) * 10 + n % 10);
    }
}

/// Scans for the first CRLF pair at or after `pos`, returning the
/// length of the text before it.
fn find_line(src: &Vec<u8>, pos: usize) -> (r: Option<usize>)
    requires
        pos <= src@.len(),
    ensures
        match r {
            Option::Some(n) => line_len(src@.skip(pos as int)) == Option::Some(n as nat) && pos
                + n + 2 <= src@.len(),
            Option::None => line_len(src@.skip(pos as int)) is None,
        },
{
    let ghost b = src@.skip(pos as int);
    let len = src.len();
    let end = if len >= 1 {
        len - 1
    } else {
        0
    };
    let mut i = pos;
    while i < end
        invariant
            pos <= i,
            pos <= src@.len(),
            i <= src@.len(),
            len == src@.len(),
            end == if len >= 1 { (len - 1) as int } else { 0 },
            b == src@.skip(pos as int),
            forall|j: int| 0 <= j < i - pos ==> !crlf_at(b, j),
        decreases end - i,
    {
        if src[i] == 13 && src[i + 1] == 10 {
            proof {
                assert(b[i - pos] == src@[i as int]);
                assert(b[i - pos + 1] == src@[i + 1]);
                lemma_line_len_exact(b, i - pos);
            }
            return Option::Some(i - pos);
        }
        proof {
            assert(b[i - pos] == src@[i as int]);
            assert(b[i - pos + 1] == src@[i + 1]);
        }
        i = i + 1;
    }
    proof {
        lemma_line_len_char(b);
        if line_len(b) is Some {
            let n = line_len(b)->Some_0;
            assert(crlf_at(b, n as int));
            assert(n + pos < end);
        }
    }
    Option::None
}

/// Reads the unsigned decimal the bytes of `src[start..end]` spell,
/// refusing non-digits, an empty run, and 64-bit overflow.
pub(crate) fn parse_u64_digits(src: &Vec<u8>, start: usize, end: usize) -> (r: Option<u64>)
    requires
        start <= end <= src@.len(),
    ensures
        ({
            let body = src@.subrange(start as int, end as int);
            match r {
                Option::Some(v) => count_line_val(body) == Option::Some(v as nat),
                Option::None => count_line_val(body) is None,
            }
        }),
{
    let ghost body = src@.subrange(start as int, end as int);
    if start == end {
        return Option::None;
    }
    let mut acc: u128 = 0;
    let mut i = start;
    while i < end
        invariant
            start <= i <= end <= src@.len(),
            body == src@.subrange(start as int, end as int),
            acc <= u64::MAX,
            acc as nat == digits_val(body.take(i - start)),
            all_digits(body.take(i - start)),
        decreases end - i,
    {
        let c = src[i];
        if c < 48 || c > 57 {
            proof {
                assert(body[i - start] == c);
                assert(!is_digit(body[i - start]));
            }
            return Option::None;
        }
        proof {
            assert(body[i - start] == c);
            lemma_digits_val_step(body, i - start);
            assert(body.take(i - start + 1).drop_last() =~= body.take(i - start));
        }
        acc = acc * 10 + ((c - 48) as u128);
        i = i + 1;
        proof {
            assert(all_digits(body.take(i - start))) by {
                assert(forall|j: int|
                    0 <= j < i - 1 - start ==> body.take(i - start)[j] == #[trigger] body.take(
                        i - 1 - start,
                    )[j]);
                assert(body.take(i - start)[i - 1 - start] == body[i - 1 - start]);
            }
        }
        if acc > u64::MAX as u128 {
            proof {
                lemma_digits_val_grows(body, i - start);
                assert(digits_val(body) > u64::MAX);
            }
            return Option::None;
        }
    }
    proof {
        assert(body.take(end - start) =~= body);
    }
    Option::Some(acc as u64)
}

impl Frame {
    /// Walks one frame starting at `pos` without building it.  `Ok`
    /// returns the position just past the frame; `Incomplete` asks for
    /// more bytes; any other error is a grammar violation.
    #[verifier::rlimit(60)]
    pub fn check(src: &Vec<u8>, pos: usize) -> (r: Result<usize, Error>)
        requires
            pos <= src@.len(),
        ensures
            ({
                let p = parse_bytes(src@.skip(pos as int));
                &&& (r matches Ok(end) ==> p matches Parsed::Frame(d, n) && end == pos + n && pos
                    < end <= src@.len())
                &&& (r matches Err(e) ==> !(p is Frame) && (e is Incomplete <==> p is Incomplete)
                    && (e is Other <==> p is Malformed))
            }),
        decreases src@.len() - pos,
    {
        let ghost b = src@.skip(pos as int);
        let len = src.len();
        if pos == len {
            return Err(Error::Incomplete);
        }
        let t = src[pos];
        let ghost rest = b.drop_first();
        proof {
            assert(b[0] == t);
            assert(rest =~= src@.skip(pos + 1));
        }
        if t == 43 || t == 45 || t == 58 {
            match find_line(src, pos + 1) {
                Option::Some(n) => {
                    if t == 58 {
                        proof {
                            assert(src@.subrange(pos + 1, pos + 1 + n) =~= rest.take(n as int));
                        }
                        match parse_int_line(src, pos + 1, pos + 1 + n) {
                            Option::Some(_) => Ok(pos + n + 3),
                            Option::None => Err(Error::Other(String::from_str(
                                "invalid frame type",
                            ))),
                        }
                    } else {
                        Ok(pos + n + 3)
                    }
                },
                Option::None => Err(Error::Incomplete),
            }
        } else if t == 36 {
            match find_line(src, pos + 1) {
                Option::Some(n) => {
                    let ghost body = rest.take(n as int);
                    proof {
                        assert(src@.subrange(pos + 1, pos + 1 + n) =~= body);
                    }
                    if n == 2 && src[pos + 1] == 45 && src[pos + 2] == 49 {
                        proof {
                            assert(body[0] == 45u8);
                            assert(body[1] == 49u8);
                            assert(body =~= seq![45u8, 49u8]);
                        }
                        Ok(pos + n + 3)
                    } else {
                        proof {
                            if body == seq![45u8, 49u8] {
                                assert(body.len() == 2);
                                assert(src@[pos + 1] == body[0]);
                                assert(src@[pos + 2] == body[1]);
                            }
                        }
                        match parse_u64_digits(src, pos + 1, pos + 1 + n) {
                            Option::Some(dlen) => {
                                let avail = len - (pos + n + 3);
                                proof {
                                    assert(skip_at_most(rest, (n + 2) as nat) =~= src@.skip(
                                        pos + n + 3,
                                    ));
                                    assert(skip_at_most(rest, (n + 2) as nat).len() == avail);
                                }
                                if (avail as u128) < (dlen as u128) + 2 {
                                    Err(Error::Incomplete)
                                } else {
                                    Ok(pos + n + 3 + (dlen as usize) + 2)
                                }
                            },
                            Option::None => Err(Error::Other(String::from_str(
                                "invalid frame type",
                            ))),
                        }
                    }
                },
                Option::None => Err(Error::Incomplete),
            }
        } else if t == 42 {
            match find_line(src, pos + 1) {
                Option::Some(n) => {
                    proof {
                        assert(src@.subrange(pos + 1, pos + 1 + n) =~= rest.take(n as int));
                    }
                    match parse_u64_digits(src, pos + 1, pos + 1 + n) {
                        Option::Some(k) => {
                            let start0 = pos + n + 3;
                            proof {
                                assert(skip_at_most(rest, (n + 2) as nat) =~= src@.skip(start0 as int));
                            }
                            let mut cur = start0;
                            let mut j: u64 = 0;
                            loop
                                invariant
                                    j <= k,
                                    pos < start0 <= cur <= src@.len(),
                                    parse_bytes(b) == (match parse_items(
                                        src@.skip(cur as int),
                                        (k - j) as nat,
                                    ) {
                                        ParsedItems::Items(_, m) => Parsed::Frame(
                                            parse_bytes(b)->Frame_0,
                                            ((cur - pos) + m) as nat,
                                        ),
                                        ParsedItems::Incomplete => Parsed::Incomplete,
                                        ParsedItems::Malformed => Parsed::Malformed,
                                    }),
                                    b == src@.skip(pos as int),
                                decreases k - j,
                            {
                                if j == k {
                                    proof {
                                        assert(parse_items(src@.skip(cur as int), 0nat)
                                            == ParsedItems::Items(Seq::empty(), 0));
                                    }
                                    return Ok(cur);
                                }
                                match Self::check(src, cur) {
                                    Ok(end) => {
                                        proof {
                                            let c = src@.skip(cur as int);
                                            let n1 = parse_bytes(c)->Frame_1;
                                            assert(skip_at_most(c, n1) =~= src@.skip(
                                                end as int,
                                            ));
                                        }
                                        cur = end;
                                        j = j + 1;
                                    },
                                    Err(e) => {
                                        return Err(e);
                                    },
                                }
                            }
                        },
                        Option::None => Err(Error::Other(String::from_str(
                            "invalid frame type",
                        ))),
                    }
                },
                Option::None => Err(Error::Incomplete),
            }
        } else if t == 95 {
            if len - pos >= 3 {
                proof {
                    assert(b[1] == src@[pos + 1]);
                    assert(b[2] == src@[pos + 2]);
                }
                if src[pos + 1] == 13 && src[pos + 2] == 10 {
                    Ok(pos + 3)
                } else {
                    Err(Error::Other(String::from_str("invalid frame type")))
                }
            } else if len - pos == 2 && src[pos + 1] != 13 {
                proof {
                    assert(b[1] == src@[pos + 1]);
                }
                Err(Error::Other(String::from_str("invalid frame type")))
            } else {
                Err(Error::Incomplete)
            }
        } else {
            Err(Error::Other(String::from_str("invalid frame type")))
        }
    }
}

/// Abstraction keeps the number of frames.
pub proof fn lemma_frames_data_len(s: Seq<Frame>)
    ensures
        frames_data(s).len() == s.len(),
    decreases s.len(),
{
    if s.len() == 0 {
    } else {
        lemma_frames_data_len(s.drop_first());
    }
}

/// Appending a frame appends its abstract value.
pub proof fn lemma_frames_data_push(s: Seq<Frame>, f: Frame)
    ensures
        frames_data(s.push(f)) == frames_data(s).push(f.data()),
    decreases s.len(),
{
    if s.len() == 0 {
        assert(s.push(f)[0] == f);
        assert(s.push(f).drop_first() =~= Seq::<Frame>::empty());
        assert(frames_data(Seq::<Frame>::empty()) == Seq::<FrameData>::empty());
        assert(frames_data(s.push(f)) == seq![f.data()] + Seq::<FrameData>::empty());
        assert(frames_data(s) == Seq::<FrameData>::empty());
        assert(seq![f.data()] + Seq::<FrameData>::empty() =~= Seq::<FrameData>::empty().push(
            f.data(),
        ));
    } else {
        assert(s.push(f).drop_first() =~= s.drop_first().push(f));
        lemma_frames_data_push(s.drop_first(), f);
        assert(s.push(f)[0] == s[0]);
        assert(seq![s[0].data()] + frames_data(s.drop_first()).push(f.data()) =~= (seq![
            s[0].data(),
        ] + frames_data(s.drop_first())).push(f.data()));
    }
}

/// Appending a frame appends its serialized bytes.
proof fn lemma_frames_bytes_push(s: Seq<FrameData>, d: FrameData)
    ensures
        frames_bytes(s.push(d)) == frames_bytes(s) + frame_bytes(d),
    decreases s.len(),
{
    if s.len() == 0 {
        assert(s.push(d)[0] == d);
        assert(s.push(d).drop_first() =~= Seq::<FrameData>::empty());
        assert(frames_bytes(Seq::<FrameData>::empty()) == Seq::<u8>::empty());
        assert(frames_bytes(s.push(d)) == frame_bytes(d) + Seq::<u8>::empty());
        assert(frames_bytes(s) == Seq::<u8>::empty());
        assert(frame_bytes(d) + Seq::<u8>::empty() =~= Seq::<u8>::empty() + frame_bytes(d));
    } else {
        assert(s.push(d).drop_first() =~= s.drop_first().push(d));
        lemma_frames_bytes_push(s.drop_first(), d);
        assert(s.push(d)[0] == s[0]);
        assert(frame_bytes(s[0]) + (frames_bytes(s.drop_first()) + frame_bytes(d)) =~= (
        frame_bytes(s[0]) + frames_bytes(s.drop_first())) + frame_bytes(d));
    }
}

impl Frame {
    /// Decodes the frame starting at `pos`.  To be invoked only after
    /// `check` accepted the same position; it then always succeeds and
    /// consumes exactly the bytes `check` walked.
    #[verifier::rlimit(100)]
    pub fn parse(src: &Vec<u8>, pos: usize) -> (r: Result<(Frame, usize), Error>)
        requires
            pos <= src@.len(),
            parse_bytes(src@.skip(pos as int)) is Frame,
        ensures
            ({
                let p = parse_bytes(src@.skip(pos as int));
                r matches Ok((f, end)) && p == Parsed::Frame(f.data(), (end - pos) as nat) && pos
                    < end <= src@.len()
            }),
        decreases src@.len() - pos,
    {
        let ghost b = src@.skip(pos as int);
        let len = src.len();
        if pos == len {
            proof {
                assert(false);
            }
            return Err(Error::Incomplete);
        }
        let t = src[pos];
        let ghost rest = b.drop_first();
        proof {
            assert(b[0] == t);
            assert(rest =~= src@.skip(pos + 1));
        }
        if t == 43 || t == 45 {
            match find_line(src, pos + 1) {
                Option::Some(n) => {
                    let line = vstd::slice::slice_subrange(src.as_slice(), pos + 1, pos + 1 + n);
                    proof {
                        assert(line@ =~= rest.take(n as int));
                    }
                    let text = utf8_lossy(line);
                    proof {
                        assert(text@ == lossy_text(rest.take(n as int)));
                    }
                    let f = if t == 43 {
                        Frame::Simple(text)
                    } else {
                        Frame::Error(text)
                    };
                    Ok((f, pos + n + 3))
                },
                Option::None => {
                    proof {
                        assert(false);
                    }
                    Err(Error::Incomplete)
                },
            }
        } else if t == 58 {
            match find_line(src, pos + 1) {
                Option::Some(n) => {
                    proof {
                        assert(src@.subrange(pos + 1, pos + 1 + n) =~= rest.take(n as int));
                    }
                    match parse_int_line(src, pos + 1, pos + 1 + n) {
                        Option::Some(v) => Ok((Frame::Integer(v), pos + n + 3)),
                        Option::None => {
                            proof {
                                assert(false);
                            }
                            Err(Error::Incomplete)
                        },
                    }
                },
                Option::None => {
                    proof {
                        assert(false);
                    }
                    Err(Error::Incomplete)
                },
            }
        } else if t == 36 {
            match find_line(src, pos + 1) {
                Option::Some(n) => {
                    let ghost body = rest.take(n as int);
                    proof {
                        assert(src@.subrange(pos + 1, pos + 1 + n) =~= body);
                    }
                    if n == 2 && src[pos + 1] == 45 && src[pos + 2] == 49 {
                        proof {
                            assert(body[0] == 45u8);
                            assert(body[1] == 49u8);
                            assert(body =~= seq![45u8, 49u8]);
                        }
                        Ok((Frame::Null, pos + n + 3))
                    } else {
                        proof {
                            if body == seq![45u8, 49u8] {
                                assert(body.len() == 2);
                                assert(src@[pos + 1] == body[0]);
                                assert(src@[pos + 2] == body[1]);
                            }
                        }
                        match parse_u64_digits(src, pos + 1, pos + 1 + n) {
                            Option::Some(dlen) => {
                                let avail = len - (pos + n + 3);
                                proof {
                                    assert(skip_at_most(rest, (n + 2) as nat) =~= src@.skip(
                                        pos + n + 3,
                                    ));
                                }
                                if (avail as u128) < (dlen as u128) + 2 {
                                    proof {
                                        assert(false);
                                    }
                                    Err(Error::Incomplete)
                                } else {
                                    let dstart = pos + n + 3;
                                    let data = vstd::slice::slice_to_vec(
                                        vstd::slice::slice_subrange(
                                            src.as_slice(),
                                            dstart,
                                            dstart + (dlen as usize),
                                        ),
                                    );
                                    proof {
                                        assert(data@ =~= skip_at_most(
                                            rest,
                                            (n + 2) as nat,
                                        ).take(dlen as int));
                                    }
                                    Ok((Frame::Bulk(data), pos + n + 3 + (dlen as usize) + 2))
                                }
                            },
                            Option::None => {
                                proof {
                                    assert(false);
                                }
                                Err(Error::Incomplete)
                            },
                        }
                    }
                },
                Option::None => {
                    proof {
                        assert(false);
                    }
                    Err(Error::Incomplete)
                },
            }
        } else if t == 42 {
            match find_line(src, pos + 1) {
                Option::Some(n) => {
                    proof {
                        assert(src@.subrange(pos + 1, pos + 1 + n) =~= rest.take(n as int));
                    }
                    match parse_u64_digits(src, pos + 1, pos + 1 + n) {
                        Option::Some(k) => {
                            let start0 = pos + n + 3;
                            proof {
                                assert(skip_at_most(rest, (n + 2) as nat) =~= src@.skip(
                                    start0 as int,
                                ));
                            }
                            let ghost items0 = parse_bytes(b)->Frame_0->Array_0;
                            let ghost m0 = parse_items(
                                src@.skip(start0 as int),
                                k as nat,
                            )->Items_1;
                            let mut acc: Vec<Frame> = Vec::new();
                            let mut cur = start0;
                            let mut j: u64 = 0;
                            loop
                                invariant
                                    j <= k,
                                    start0 == pos + n + 3,
                                    pos < start0 <= cur <= src@.len(),
                                    acc@.len() == j,
                                    b == src@.skip(pos as int),
                                    parse_bytes(b) == Parsed::Frame(
                                        FrameData::Array(items0),
                                        (n + 3 + m0) as nat,
                                    ),
                                    parse_items(src@.skip(cur as int), (k - j) as nat) matches
                                        ParsedItems::Items(tail, m) && items0 == frames_data(acc@)
                                        + tail && m0 == (cur - start0) + m,
                                decreases k - j,
                            {
                                if j == k {
                                    proof {
                                        assert(parse_items(src@.skip(cur as int), 0nat)
                                            == ParsedItems::Items(Seq::empty(), 0));
                                        assert(items0 =~= frames_data(acc@));
                                        assert(Frame::Array(acc).data() == FrameData::Array(
                                            frames_data(acc@),
                                        ));
                                    }
                                    return Ok((Frame::Array(acc), cur));
                                }
                                proof {
                                    assert(parse_bytes(src@.skip(cur as int)) is Frame);
                                }
                                match Self::parse(src, cur) {
                                    Ok((f, end)) => {
                                        proof {
                                            let c = src@.skip(cur as int);
                                            let n1 = (end - cur) as nat;
                                            assert(skip_at_most(c, n1) =~= src@.skip(
                                                end as int,
                                            ));
                                            lemma_frames_data_push(acc@, f);
                                            let tail = parse_items(
                                                c,
                                                (k - j) as nat,
                                            )->Items_0;
                                            assert(frames_data(acc@) + tail =~= frames_data(
                                                acc@.push(f),
                                            ) + tail.drop_first());
                                        }
                                        acc.push(f);
                                        cur = end;
                                        j = j + 1;
                                    },
                                    Err(e) => {
                                        proof {
                                            assert(false);
                                        }
                                        return Err(e);
                                    },
                                }
                            }
                        },
                        Option::None => {
                            proof {
                                assert(false);
                            }
                            Err(Error::Incomplete)
                        },
                    }
                },
                Option::None => {
                    proof {
                        assert(false);
                    }
                    Err(Error::Incomplete)
                },
            }
        } else if t == 95 {
            proof {
                assert(b[1] == src@[pos + 1]);
                assert(b[2] == src@[pos + 2]);
            }
            if len - pos >= 3 && src[pos + 1] == 13 && src[pos + 2] == 10 {
                Ok((Frame::Null, pos + 3))
            } else {
                proof {
                    assert(false);
                }
                Err(Error::Incomplete)
            }
        } else {
            proof {
                assert(false);
            }
            Err(Error::Incomplete)
        }
    }

    /// Serializes the frame to its wire form.
    #[verifier::rlimit(30)]
    #[verifier::loop_isolation(false)]
    pub fn into_bytes(&self) -> (r: Vec<u8>)
        ensures
            r@ == frame_bytes(self.data()),
        decreases self,
    {
        match self {
            Frame::Simple(s) => {
                let mut out: Vec<u8> = Vec::new();
                out.push(43);
                let mut text = vstd::slice::slice_to_vec(s.as_str().as_bytes());
                out.append(&mut text);
                out.push(13);
                out.push(10);
                proof {
                    assert(self.data() == FrameData::Simple(s@));
                    assert(out@ =~= seq![43u8] + encode_utf8(s@) + crlf());
                }
                out
            },
            Frame::Error(s) => {
                let mut out: Vec<u8> = Vec::new();
                out.push(45);
                let mut text = vstd::slice::slice_to_vec(s.as_str().as_bytes());
                out.append(&mut text);
                out.push(13);
                out.push(10);
                proof {
                    assert(self.data() == FrameData::Error(s@));
                    assert(out@ =~= seq![45u8] + encode_utf8(s@) + crlf());
                }
                out
            },
            Frame::Integer(value) => {
                let v = *value;
                let mut out: Vec<u8> = Vec::new();
                out.push(58);
                if v < 0 {
                    out.push(45);
                    let mag: u64 = if v == i64::MIN {
                        9223372036854775808u64
                    } else {
                        (-v) as u64
                    };
                    push_u64_digits(&mut out, mag);
                    proof {
                        assert(mag as nat == (-(v as int)) as nat);
                    }
                } else {
                    push_u64_digits(&mut out, v as u64);
                }
                out.push(13);
                out.push(10);
                proof {
                    assert(self.data() == FrameData::Integer(v as int));
                    assert(out@ =~= seq![58u8] + int_digits(v as int) + crlf());
                }
                out
            },
            Frame::Bulk(data) => {
                let mut out: Vec<u8> = Vec::new();
                out.push(36);
                push_u64_digits(&mut out, data.len() as u64);
                out.push(13);
                out.push(10);
                let mut payload = vstd::slice::slice_to_vec(data.as_slice());
                out.append(&mut payload);
                out.push(13);
                out.push(10);
                proof {
                    assert(self.data() == FrameData::Bulk(data@));
                    assert(out@ =~= seq![36u8] + dec_digits(data@.len()) + crlf() + data@
                        + crlf());
                }
                out
            },
            Frame::Array(arr) => {
                let mut out: Vec<u8> = Vec::new();
                out.push(42);
                push_u64_digits(&mut out, arr.len() as u64);
                out.push(13);
                out.push(10);
                let ghost header = seq![42u8] + dec_digits(arr@.len()) + crlf();
                proof {
                    assert(self.data() == FrameData::Array(frames_data(arr@)));
                    assert(out@ =~= header);
                    assert(arr@.take(0) =~= Seq::<Frame>::empty());
                }
                let mut i: usize = 0;
                while i < arr.len()
                    invariant
                        i <= arr@.len(),
                        header == seq![42u8] + dec_digits(arr@.len()) + crlf(),
                        out@ == header + frames_bytes(frames_data(arr@.take(i as int))),
                    decreases arr@.len() - i,
                {
                    proof {
                        assert(self->Array_0 == *arr);
                        assert(decreases_to!(*self => self->Array_0));
                        assert(decreases_to!(*arr => arr@));
                        assert(decreases_to!(arr@ => arr@[i as int]));
                        assert(decreases_to!(self => arr@[i as int]));
                    }
                    let mut bs = arr[i].into_bytes();
                    out.append(&mut bs);
                    proof {
                        assert(arr@.take(i + 1) =~= arr@.take(i as int).push(arr@[i as int]));
                        lemma_frames_data_push(arr@.take(i as int), arr@[i as int]);
                        lemma_frames_bytes_push(
                            frames_data(arr@.take(i as int)),
                            arr@[i as int].data(),
                        );
                        assert(out@ =~= header + frames_bytes(
                            frames_data(arr@.take(i + 1)),
                        ));
                    }
                    i = i + 1;
                }
                proof {
                    assert(arr@.take(arr@.len() as int) =~= arr@);
                    lemma_frames_data_len(arr@);
                }
                out
            },
            Frame::Null => {
                let mut out: Vec<u8> = Vec::new();
                out.push(95);
                out.push(13);
                out.push(10);
                proof {
                    assert(self.data() == FrameData::Null);
                    assert(out@ =~= seq![95u8] + crlf());
                }
                out
            },
        }
    }
}

/// Reads the signed decimal the bytes of `src[start..end]` spell,
/// refusing anything outside the 64-bit signed range.
fn parse_int_line(src: &Vec<u8>, start: usize, end: usize) -> (r: Option<i64>)
    requires
        start <= end <= src@.len(),
    ensures
        ({
            let body = src@.subrange(start as int, end as int);
            match r {
                Option::Some(v) => int_line_val(body) == Option::Some(v as int),
                Option::None => int_line_val(body) is None,
            }
        }),
{
    let ghost body = src@.subrange(start as int, end as int);
    if start == end {
        return Option::None;
    }
    let first = src[start];
    let neg = first == 45;
    let dstart = if first == 45 || first == 43 {
        start + 1
    } else {
        start
    };
    proof {
        assert(body[0] == first);
        assert(src@.subrange(dstart as int, end as int) =~= if first == 45 || first == 43 {
            body.drop_first()
        } else {
            body
        });
    }
    match parse_u64_digits(src, dstart, end) {
        Option::Some(v) => {
            proof {
                lemma_digits_val_grows(src@.subrange(dstart as int, end as int), 0);
            }
            if neg {
                if v <= i64::MAX as u64 {
                    Option::Some(-(v as i64))
                } else if v == 9223372036854775808u64 {
                    Option::Some(i64::MIN)
                } else {
                    Option::None
                }
            } else {
                if v <= i64::MAX as u64 {
                    Option::Some(v as i64)
                } else {
                    Option::None
                }
            }
        },
        Option::None => {
            proof {
                let d = if first == 45 || first == 43 {
                    body.drop_first()
                } else {
                    body
                };
                if d.len() >= 1 && all_digits(d) {
                    // only a 64-bit overflow can have been refused, and such a
                    // value lies outside the signed range as well
                    assert(digits_val(d) > u64::MAX);
                }
            }
            Option::None
        },
    }
}

/// Appends the canonical decimal digits of `n`.
fn push_u64_digits(out: &mut Vec<u8>, n: u64)
    ensures
        final(out)@ == old(out)@ + dec_digits(n as nat),
    decreases n,
{
    if n < 10 {
        out.push(48 + n as u8);
        assert(out@ =~= old(out)@ + dec_digits(n as nat));
    } else {
        push_u64_digits(out, n / 10);
        out.push(48 + (n % 10) as u8);
        assert(out@ =~= old(out)@ + dec_digits(n as nat));
    }
}

/// No CRLF pair occurs anywhere in `b`.
pub open spec fn crlf_free(b: Seq<u8>) -> bool {
    forall|i: int| 0 <= i && i + 1 < b.len() ==> !(#[trigger] b[i] == 13 && b[i + 1] == 10)
}

/// A frame whose serialized form parses back to itself: texts carry no
/// CRLF pair, integers fit in 64 signed bits, and counts in 64 bits.
pub open spec fn wire_ok(d: FrameData) -> bool
    decreases d,
{
    match d {
        FrameData::Simple(s) => crlf_free(encode_utf8(s)),
        FrameData::Error(s) => crlf_free(encode_utf8(s)),
        FrameData::Integer(i) => i64::MIN <= i <= i64::MAX,
        FrameData::Bulk(b) => b.len() <= u64::MAX,
        FrameData::Array(a) => a.len() <= u64::MAX && (forall|i: int|
            0 <= i < a.len() ==> wire_ok(#[trigger] a[i])),
        FrameData::Null => true,
    }
}

/// Without a CRLF pair there is no line to find.
proof fn lemma_line_len_none(b: Seq<u8>)
    requires
        forall|j: int| 0 <= j && j + 2 <= b.len() ==> !crlf_at(b, j),
    ensures
        line_len(b) is None,
{
    lemma_line_len_char(b);
    if line_len(b) is Some {
        let n = line_len(b)->Some_0;
        assert(crlf_at(b, n as int));
    }
}

/// The first CRLF pair after a pair-free text is the one that ends it.
proof fn lemma_line_at_crlf(x: Seq<u8>, tail: Seq<u8>)
    requires
        crlf_free(x),
    ensures
        line_len(x + crlf() + tail) == Option::Some(x.len() as nat),
{
    let b = x + crlf() + tail;
    assert(crlf_at(b, x.len() as int));
    assert forall|j: int| 0 <= j < x.len() implies !crlf_at(b, j) by {
        if j + 1 < x.len() {
            assert(b[j] == x[j]);
            assert(b[j + 1] == x[j + 1]);
        } else {
            assert(b[j + 1] == 13u8);
        }
    }
    lemma_line_len_exact(b, x.len() as int);
}

/// A text cut anywhere before its closing CRLF holds no line.
proof fn lemma_line_prefix_none(x: Seq<u8>, m: int)
    requires
        crlf_free(x),
        0 <= m <= x.len() + 1,
    ensures
        line_len((x + crlf()).take(m)) is None,
{
    let p = (x + crlf()).take(m);
    assert forall|j: int| 0 <= j && j + 2 <= p.len() implies !crlf_at(p, j) by {
        if j + 1 < x.len() {
            assert(p[j] == x[j]);
            assert(p[j + 1] == x[j + 1]);
        } else {
            assert(p[j + 1] == 13u8);
        }
    }
    lemma_line_len_none(p);
}

/// Decimal digits hold no CRLF pair.
proof fn lemma_digits_crlf_free(b: Seq<u8>)
    requires
        all_digits(b),
    ensures
        crlf_free(b),
{
    assert forall|i: int| 0 <= i && i + 1 < b.len() implies !(#[trigger] b[i] == 13 && b[i + 1] == 10) by {
        assert(is_digit(b[i]));
    }
}

/// A signed decimal holds no CRLF pair.
proof fn lemma_int_digits_crlf_free(i: int)
    ensures
        crlf_free(int_digits(i)),
{
    let b = int_digits(i);
    if i < 0 {
        lemma_dec_digits((-i) as nat);
        assert forall|j: int| 0 <= j && j + 1 < b.len() implies !(#[trigger] b[j] == 13 && b[j + 1] == 10)
        by {
            if j == 0 {
                assert(b[0] == 45u8);
            } else {
                assert(b[j] == dec_digits((-i) as nat)[j - 1]);
                assert(is_digit(dec_digits((-i) as nat)[j - 1]));
            }
        }
    } else {
        lemma_dec_digits(i as nat);
        lemma_digits_crlf_free(b);
    }
}

/// The canonical signed decimal of an in-range value reads back as it.
proof fn lemma_int_digits_val(i: int)
    requires
        i64::MIN <= i <= i64::MAX,
    ensures
        int_line_val(int_digits(i)) == Option::Some(i),
{
    let b = int_digits(i);
    if i < 0 {
        lemma_dec_digits((-i) as nat);
        assert(b[0] == 45u8);
        assert(b.drop_first() =~= dec_digits((-i) as nat));
        assert(signed_body_val(b) == Option::Some(-(digits_val(dec_digits((-i) as nat)) as int)));
    } else {
        lemma_dec_digits(i as nat);
        assert(is_digit(b[0]));
        assert(signed_body_val(b) == Option::Some(digits_val(dec_digits(i as nat)) as int));
    }
}

/// Parsing the serialized form of a well-formed frame, whatever bytes
/// follow it, yields the frame and consumes exactly its encoding.
pub proof fn lemma_round_trip(d: FrameData, rest: Seq<u8>)
    requires
        wire_ok(d),
    ensures
        parse_bytes(frame_bytes(d) + rest) == Parsed::Frame(d, frame_bytes(d).len() as nat),
    decreases d,
{
    let e = frame_bytes(d);
    let b = e + rest;
    let rest1 = b.drop_first();
    match d {
        FrameData::Simple(s) => {
            let enc = encode_utf8(s);
            assert(b[0] == 43u8);
            assert(rest1 =~= enc + crlf() + rest);
            lemma_line_at_crlf(enc, rest);
            assert(rest1.take(enc.len() as int) =~= enc);
            vstd::utf8::encode_utf8_valid_utf8(s);
            vstd::utf8::encode_utf8_decode_utf8(s);
            assert(lossy_text(enc) == s);
        },
        FrameData::Error(s) => {
            let enc = encode_utf8(s);
            assert(b[0] == 45u8);
            assert(rest1 =~= enc + crlf() + rest);
            lemma_line_at_crlf(enc, rest);
            assert(rest1.take(enc.len() as int) =~= enc);
            vstd::utf8::encode_utf8_valid_utf8(s);
            vstd::utf8::encode_utf8_decode_utf8(s);
            assert(lossy_text(enc) == s);
            assert(b[0] != 43u8);
        },
        FrameData::Integer(i) => {
            let enc = int_digits(i);
            assert(b[0] == 58u8);
            assert(rest1 =~= enc + crlf() + rest);
            lemma_int_digits_crlf_free(i);
            lemma_line_at_crlf(enc, rest);
            assert(rest1.take(enc.len() as int) =~= enc);
            lemma_int_digits_val(i);
            if i < 0 {
                lemma_dec_digits((-i) as nat);
            } else {
                lemma_dec_digits(i as nat);
            }
            assert(b[0] != 43u8 && b[0] != 45u8);
        },
        FrameData::Bulk(bb) => {
            let hdr = dec_digits(bb.len());
            lemma_dec_digits(bb.len());
            assert(b[0] == 36u8);
            assert(rest1 =~= hdr + crlf() + (bb + crlf() + rest));
            lemma_digits_crlf_free(hdr);
            lemma_line_at_crlf(hdr, bb + crlf() + rest);
            let n = hdr.len() as int;
            assert(rest1.take(n) =~= hdr);
            assert(rest1.take(n) != seq![45u8, 49u8]) by {
                if rest1.take(n) == seq![45u8, 49u8] {
                    assert(is_digit(hdr[0]));
                    assert(rest1.take(n)[0] == 45u8);
                }
            }
            assert(count_line_val(hdr) == Option::Some(bb.len()));
            assert(skip_at_most(rest1, (n + 2) as nat) =~= bb + crlf() + rest);
            let after = skip_at_most(rest1, (n + 2) as nat);
            assert(after.len() >= bb.len() + 2);
            assert(after.take(bb.len() as int) =~= bb);
        },
        FrameData::Array(a) => {
            let hdr = dec_digits(a.len());
            lemma_dec_digits(a.len());
            assert(b[0] == 42u8);
            assert(rest1 =~= hdr + crlf() + (frames_bytes(a) + rest));
            lemma_digits_crlf_free(hdr);
            lemma_line_at_crlf(hdr, frames_bytes(a) + rest);
            let n = hdr.len() as int;
            assert(rest1.take(n) =~= hdr);
            assert(count_line_val(hdr) == Option::Some(a.len()));
            assert(skip_at_most(rest1, (n + 2) as nat) =~= frames_bytes(a) + rest);
            lemma_round_trip_items(a, rest);
        },
        FrameData::Null => {
            assert(b[0] == 95u8);
            assert(b[1] == 13u8);
            assert(b[2] == 10u8);
        },
    }
}

/// Parsing the concatenated serialized forms of well-formed frames,
/// whatever bytes follow them, yields those frames in order.
pub proof fn lemma_round_trip_items(a: Seq<FrameData>, rest: Seq<u8>)
    requires
        forall|i: int| 0 <= i < a.len() ==> wire_ok(#[trigger] a[i]),
    ensures
        parse_items(frames_bytes(a) + rest, a.len() as nat) == ParsedItems::Items(
            a,
            frames_bytes(a).len() as nat,
        ),
    decreases a,
{
    let b = frames_bytes(a) + rest;
    if a.len() == 0 {
        assert(a =~= Seq::<FrameData>::empty());
    } else {
        let e0 = frame_bytes(a[0]);
        let tail = a.drop_first();
        assert(b =~= e0 + (frames_bytes(tail) + rest));
        lemma_round_trip(a[0], frames_bytes(tail) + rest);
        assert(parse_bytes(b) == Parsed::Frame(a[0], e0.len() as nat));
        assert(skip_at_most(b, e0.len() as nat) =~= frames_bytes(tail) + rest);
        assert(forall|i: int| 0 <= i < tail.len() ==> wire_ok(#[trigger] tail[i])) by {
            assert(forall|i: int| 0 <= i < tail.len() ==> tail[i] == a[i + 1]);
        }
        lemma_round_trip_items(tail, rest);
        assert(seq![a[0]] + tail =~= a);
        assert(frames_bytes(a).len() == e0.len() + frames_bytes(tail).len());
    }
}

/// Any strict prefix of a well-formed frame's serialized form is
/// incomplete, never malformed.
pub proof fn lemma_prefix_incomplete(d: FrameData, m: int)
    requires
        wire_ok(d),
        0 <= m < frame_bytes(d).len(),
    ensures
        parse_bytes(frame_bytes(d).take(m)) is Incomplete,
    decreases d,
{
    let e = frame_bytes(d);
    let p = e.take(m);
    if m == 0 {
        assert(p.len() == 0);
    } else {
        let rest1 = p.drop_first();
        match d {
            FrameData::Simple(s) => {
                let enc = encode_utf8(s);
                assert(p[0] == 43u8);
                assert(rest1 =~= (enc + crlf()).take(m - 1));
                lemma_line_prefix_none(enc, m - 1);
            },
            FrameData::Error(s) => {
                let enc = encode_utf8(s);
                assert(p[0] == 45u8);
                assert(rest1 =~= (enc + crlf()).take(m - 1));
                lemma_line_prefix_none(enc, m - 1);
            },
            FrameData::Integer(i) => {
                let enc = int_digits(i);
                assert(p[0] == 58u8);
                assert(rest1 =~= (enc + crlf()).take(m - 1));
                lemma_int_digits_crlf_free(i);
                lemma_line_prefix_none(enc, m - 1);
            },
            FrameData::Bulk(bb) => {
                let hdr = dec_digits(bb.len());
                lemma_dec_digits(bb.len());
                lemma_digits_crlf_free(hdr);
                assert(p[0] == 36u8);
                let n = hdr.len() as int;
                if m - 1 <= n + 1 {
                    assert(rest1 =~= (hdr + crlf()).take(m - 1));
                    lemma_line_prefix_none(hdr, m - 1);
                } else {
                    assert(rest1 =~= hdr + crlf() + (bb + crlf()).take(m - 1 - n - 2));
                    lemma_line_at_crlf(hdr, (bb + crlf()).take(m - 1 - n - 2));
                    assert(rest1.take(n) =~= hdr);
                    assert(rest1.take(n) != seq![45u8, 49u8]) by {
                        if rest1.take(n) == seq![45u8, 49u8] {
                            assert(is_digit(hdr[0]));
                            assert(rest1.take(n)[0] == 45u8);
                        }
                    }
                    assert(count_line_val(hdr) == Option::Some(bb.len()));
                    let after = skip_at_most(rest1, (n + 2) as nat);
                    assert(after =~= (bb + crlf()).take(m - 1 - n - 2));
                    assert(after.len() < bb.len() + 2);
                }
            },
            FrameData::Array(a) => {
                let hdr = dec_digits(a.len());
                lemma_dec_digits(a.len());
                lemma_digits_crlf_free(hdr);
                assert(p[0] == 42u8);
                let n = hdr.len() as int;
                if m - 1 <= n + 1 {
                    assert(rest1 =~= (hdr + crlf()).take(m - 1));
                    lemma_line_prefix_none(hdr, m - 1);
                } else {
                    let mi = m - 1 - n - 2;
                    assert(rest1 =~= hdr + crlf() + frames_bytes(a).take(mi));
                    lemma_line_at_crlf(hdr, frames_bytes(a).take(mi));
                    assert(rest1.take(n) =~= hdr);
                    assert(count_line_val(hdr) == Option::Some(a.len()));
                    let after = skip_at_most(rest1, (n + 2) as nat);
                    assert(after =~= frames_bytes(a).take(mi));
                    lemma_prefix_incomplete_items(a, mi);
                }
            },
            FrameData::Null => {
                assert(p[0] == 95u8);
                if m == 2 {
                    assert(p[1] == 13u8);
                }
            },
        }
    }
}

/// Any strict prefix of the concatenated serialized forms of
/// well-formed frames is incomplete when all of them are expected.
pub proof fn lemma_prefix_incomplete_items(a: Seq<FrameData>, m: int)
    requires
        forall|i: int| 0 <= i < a.len() ==> wire_ok(#[trigger] a[i]),
        0 <= m < frames_bytes(a).len(),
    ensures
        parse_items(frames_bytes(a).take(m), a.len() as nat) is Incomplete,
    decreases a,
{
    let p = frames_bytes(a).take(m);
    assert(a.len() > 0);
    let e0 = frame_bytes(a[0]);
    let tail = a.drop_first();
    assert(forall|i: int| 0 <= i < tail.len() ==> wire_ok(#[trigger] tail[i])) by {
        assert(forall|i: int| 0 <= i < tail.len() ==> tail[i] == a[i + 1]);
    }
    if m < e0.len() {
        assert(p =~= e0.take(m));
        lemma_prefix_incomplete(a[0], m);
    } else {
        let mi = m - e0.len();
        assert(p =~= e0 + frames_bytes(tail).take(mi));
        lemma_round_trip(a[0], frames_bytes(tail).take(mi));
        assert(parse_bytes(p) == Parsed::Frame(a[0], e0.len() as nat));
        assert(skip_at_most(p, e0.len() as nat) =~= frames_bytes(tail).take(mi));
        assert(frames_bytes(a).len() == e0.len() + frames_bytes(tail).len());
        lemma_prefix_incomplete_items(tail, mi);
    }
}

/// True exactly when the two texts hold the same characters.
pub(crate) fn string_eq_str(a: &String, b: &str) -> (r: bool)
    ensures
        r == (a@ == b@),
{
    let bs = String::from_str(b);
    a.eq(&bs)
}

/// Abstraction keeps each frame at its place.
pub proof fn lemma_frames_data_index(s: Seq<Frame>, i: int)
    requires
        0 <= i < s.len(),
    ensures
        frames_data(s).len() == s.len(),
        frames_data(s)[i] == s[i].data(),
    decreases i,
{
    lemma_frames_data_len(s);
    if i == 0 {
    } else {
        let t = s.drop_first();
        lemma_frames_data_index(t, i - 1);
        lemma_frames_data_len(t);
    }
}

/// True exactly when the two byte strings are equal.
pub(crate) fn bytes_eq(a: &Vec<u8>, b: &Vec<u8>) -> (r: bool)
    ensures
        r == (a@ == b@),
{
    if a.len() != b.len() {
        return false;
    }
    let mut i: usize = 0;
    while i < a.len()
        invariant
            i <= a@.len(),
            a@.len() == b@.len(),
            forall|j: int| 0 <= j < i ==> a@[j] == b@[j],
        decreases a@.len() - i,
    {
        if a[i] != b[i] {
            return false;
        }
        i = i + 1;
    }
    proof {
        assert(a@ =~= b@);
    }
    true
}

/// A frame's abstract value keeps its constructor.
proof fn lemma_data_variant(f: Frame)
    ensures
        f.data() is Simple <==> f is Simple,
        f.data() is Bulk <==> f is Bulk,
        f.data() is Integer <==> f is Integer,
        f.data() is Error <==> f is Error,
        f.data() is Array <==> f is Array,
        f.data() is Null <==> f is Null,
{
    match f {
        Frame::Simple(_) => {},
        Frame::Bulk(_) => {},
        Frame::Integer(_) => {},
        Frame::Error(_) => {},
        Frame::Array(_) => {},
        Frame::Null => {},
    }
}

/// True exactly when the two frames carry the same abstract value.
#[verifier::loop_isolation(false)]
fn frame_eq(a: &Frame, b: &Frame) -> (r: bool)
    ensures
        r == (a.data() == b.data()),
    decreases a,
{
    match (a, b) {
        (Frame::Simple(x), Frame::Simple(y)) => x.eq(y),
        (Frame::Error(x), Frame::Error(y)) => x.eq(y),
        (Frame::Integer(x), Frame::Integer(y)) => *x == *y,
        (Frame::Bulk(x), Frame::Bulk(y)) => bytes_eq(x, y),
        (Frame::Null, Frame::Null) => true,
        (Frame::Array(x), Frame::Array(y)) => {
            proof {
                lemma_frames_data_len(x@);
                lemma_frames_data_len(y@);
            }
            if x.len() != y.len() {
                return false;
            }
            let mut i: usize = 0;
            while i < x.len()
                invariant
                    i <= x@.len(),
                    forall|j: int|
                        0 <= j < i ==> #[trigger] frames_data(x@)[j] == frames_data(y@)[j],
                decreases x@.len() - i,
            {
                proof {
                    lemma_frames_data_index(x@, i as int);
                    lemma_frames_data_index(y@, i as int);
                    assert(a->Array_0 == *x);
                    assert(decreases_to!(*a => a->Array_0));
                    assert(decreases_to!(*x => x@));
                    assert(decreases_to!(x@ => x@[i as int]));
                    assert(decreases_to!(a => x@[i as int]));
                }
                if !frame_eq(&x[i], &y[i]) {
                    proof {
                        assert(frames_data(x@)[i as int] != frames_data(y@)[i as int]);
                    }
                    return false;
                }
                i = i + 1;
            }
            proof {
                assert(frames_data(x@) =~= frames_data(y@));
            }
            true
        },
        _ => {
            proof {
                lemma_data_variant(*a);
                lemma_data_variant(*b);
            }
            false
        },
    }
}

impl PartialEq for Frame {
    /// Frames are equal when their abstract values are: texts by their
    /// characters, payloads by their bytes, arrays element by element.
    fn eq(&self, other: &Frame) -> (r: bool) {
        frame_eq(self, other)
    }
}

impl vstd::std_specs::cmp::PartialEqSpecImpl for Frame {
    open spec fn obeys_eq_spec() -> bool {
        true
    }

    open spec fn eq_spec(&self, other: &Frame) -> bool {
        self.data() == other.data()
    }
}

/// Serializing a frame and parsing the bytes back yields its whole
/// abstract value and consumes exactly its encoding.
pub proof fn lemma_frame_round_trip(f: Frame)
    requires
        wire_ok(f.data()),
    ensures
        parse_bytes(frame_bytes(f.data())) == Parsed::Frame(
            f.data(),
            frame_bytes(f.data()).len() as nat,
        ),
{
    lemma_round_trip(f.data(), Seq::empty());
    assert(frame_bytes(f.data()) + Seq::<u8>::empty() =~= frame_bytes(f.data()));
}

} // verus!


