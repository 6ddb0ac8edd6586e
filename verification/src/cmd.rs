//! The command layer: decoding a request frame into a command and
//! executing it against the store.
//!
//! A request is a `Frame::Array` whose first element names the command;
//! `ping`, `get` and `set` are the whole command set.  Executing a
//! command is a pure step from the store's state and the clock to the
//! new state, the reply frame, and a flag that wakes the sweeper.
use crate::db::{set_post, Database};
use crate::frame::{bytes_eq, frames_data, lemma_frames_data_push, Frame, FrameData};
use crate::parser::{string_of, ParseError, Parser};
use vstd::prelude::*;
use vstd::string::StringExecFns;
use vstd::string::StrSliceExecFns;
use vstd::utf8::encode_utf8;

verus! {

/// The health-check command.
pub struct Ping;

/// Reads one key.
pub struct Get {
    key: String,
}

/// Stores a value under a key, with an optional TTL in whole seconds.
pub struct SetCmd {
    key: String,
    value: Vec<u8>,
    expiration: Option<u64>,
}

/// A decoded request.
pub enum Command {
    Ping(Ping),
    Get(Get),
    SetCmd(SetCmd),
}

/// The abstract value of a command: texts as character sequences, the
/// TTL in whole seconds.
pub enum CommandData {
    Ping,
    Get(Seq<char>),
    SetCmd(Seq<char>, Seq<u8>, Option<int>),
}

/// What decoding a frame yields: a command, an argument missing where
/// one is required, or a protocol error.
pub enum Decoded {
    Cmd(CommandData),
    MissingArg,
    Invalid,
}

impl Get {
    /// The key this command reads.
    pub closed spec fn key_view(self) -> Seq<char> {
        self.key@
    }

    pub fn new(key: String) -> (g: Get)
        ensures
            g.key_view() == key@,
    {
        Get { key }
    }
}

impl SetCmd {
    pub closed spec fn key_view(self) -> Seq<char> {
        self.key@
    }

    pub closed spec fn value_view(self) -> Seq<u8> {
        self.value@
    }

    /// The TTL in whole seconds, if one was given.
    pub closed spec fn expiration_view(self) -> Option<int> {
        match self.expiration {
            Option::Some(e) => Option::Some(e as int),
            Option::None => Option::None,
        }
    }

    pub fn new(key: String, value: Vec<u8>, expiration: Option<u64>) -> (s: SetCmd)
        ensures
            s.key_view() == key@,
            s.value_view() == value@,
            s.expiration_view() == (match expiration {
                Option::Some(e) => Option::Some(e as int),
                Option::None => Option::<int>::None,
            }),
    {
        SetCmd { key, value, expiration }
    }
}

impl Command {
    /// The abstract value of this command.
    pub open spec fn data(self) -> CommandData {
        match self {
            Command::Ping(_) => CommandData::Ping,
            Command::Get(g) => CommandData::Get(g.key_view()),
            Command::SetCmd(s) => CommandData::SetCmd(s.key_view(), s.value_view(), s.expiration_view()),
        }
    }
}

/// An ASCII capital letter folded to its small form; every other byte
/// kept as it is.
pub open spec fn lower_byte(c: u8) -> u8 {
    if 65 <= c <= 90 {
        (c + 32) as u8
    } else {
        c
    }
}

/// The byte string with its ASCII capitals folded to small letters.
pub open spec fn ascii_lower(b: Seq<u8>) -> Seq<u8> {
    Seq::new(b.len(), |i: int| lower_byte(b[i]))
}

/// Case-insensitive match of a command name against its small-letter
/// form, ASCII capitals only.
pub open spec fn name_matches(name: Seq<char>, cmd: Seq<char>) -> bool {
    ascii_lower(encode_utf8(name)) == encode_utf8(cmd)
}

fn lower_vec(v: &Vec<u8>) -> (r: Vec<u8>)
    ensures
        r@ == ascii_lower(v@),
{
    let mut out: Vec<u8> = Vec::new();
    let mut i: usize = 0;
    while i < v.len()
        invariant
            i <= v@.len(),
            out@.len() == i,
            forall|j: int| 0 <= j < i ==> out@[j] == lower_byte(v@[j]),
        decreases v@.len() - i,
    {
        let c = v[i];
        if 65 <= c && c <= 90 {
            out.push(c + 32);
        } else {
            out.push(c);
        }
        i = i + 1;
    }
    proof {
        assert(out@ =~= ascii_lower(v@));
    }
    out
}

/// Whether the argument names the given command, capitals folded.
fn is_command(name: &String, cmd: &str) -> (r: bool)
    ensures
        r == name_matches(name@, cmd@),
{
    let lowered = lower_vec(&name.as_str().as_bytes_vec());
    let target = cmd.as_bytes_vec();
    bytes_eq(&lowered, &target)
}

/// What a request frame decodes to, element by element: the command
/// name from the first argument, then exactly the arguments each
/// command takes.  A missing argument and a malformed one are kept
/// apart, since a missing trailing TTL simply means "no TTL".
pub open spec fn decode_command(d: FrameData) -> Decoded {
    match d {
        FrameData::Array(items) => {
            if items.len() == 0 {
                Decoded::MissingArg
            } else {
                match string_of(items[0]) {
                    Option::None => Decoded::Invalid,
                    Option::Some(name) => if name_matches(name, "ping"@) {
                        if items.len() == 1 {
                            Decoded::Cmd(CommandData::Ping)
                        } else {
                            Decoded::Invalid
                        }
                    } else if name_matches(name, "get"@) {
                        if items.len() < 2 {
                            Decoded::MissingArg
                        } else {
                            match string_of(items[1]) {
                                Option::None => Decoded::Invalid,
                                Option::Some(key) => if items.len() == 2 {
                                    Decoded::Cmd(CommandData::Get(key))
                                } else {
                                    Decoded::Invalid
                                },
                            }
                        }
                    } else if name_matches(name, "set"@) {
                        if items.len() < 2 {
                            Decoded::MissingArg
                        } else {
                            match string_of(items[1]) {
                                Option::None => Decoded::Invalid,
                                Option::Some(key) => if items.len() < 3 {
                                    Decoded::MissingArg
                                } else {
                                    match items[2] {
                                        FrameData::Bulk(value) => if items.len() == 3 {
                                            Decoded::Cmd(
                                                CommandData::SetCmd(key, value, Option::None),
                                            )
                                        } else {
                                            match items[3] {
                                                FrameData::Integer(n) => if 0 <= n && items.len()
                                                    == 4 {
                                                    Decoded::Cmd(
                                                        CommandData::SetCmd(
                                                            key,
                                                            value,
                                                            Option::Some(n),
                                                        ),
                                                    )
                                                } else {
                                                    Decoded::Invalid
                                                },
                                                _ => Decoded::Invalid,
                                            }
                                        },
                                        _ => Decoded::Invalid,
                                    }
                                },
                            }
                        }
                    } else {
                        Decoded::Invalid
                    },
                }
            }
        },
        _ => Decoded::Invalid,
    }
}

impl Command {
    /// Decodes a request frame.  `EndOfStream` reports a required
    /// argument missing; any other failure is a protocol error, and an
    /// unrecognized command's error names it.
    pub fn from_frame(frame: Frame) -> (r: Result<Command, ParseError>)
        ensures
            ({
                let o = decode_command(frame.data());
                match r {
                    Ok(c) => o == Decoded::Cmd(c.data()),
                    Err(e) => !(o is Cmd) && (e is EndOfStream <==> o is MissingArg) && (e
                        is Other <==> o is Invalid),
                }
            }),
            (match frame.data() {
                FrameData::Array(items) => if items.len() >= 1 {
                    match string_of(items[0]) {
                        Option::Some(name) => (!name_matches(name, "ping"@) && !name_matches(
                            name,
                            "get"@,
                        ) && !name_matches(name, "set"@)) ==> (r matches Err(e) && e matches
                            ParseError::Other(m) && m@ == "unrecognized command '"@ + name
                            + "'"@),
                        Option::None => true,
                    }
                } else {
                    true
                },
                _ => true,
            }),
    {
        let ghost items = match frame.data() {
            FrameData::Array(its) => its,
            _ => Seq::empty(),
        };
        let mut parser = match Parser::new(frame) {
            Ok(p) => p,
            Err(e) => {
                return Err(e);
            },
        };
        let cmd_name = match parser.next_string() {
            Ok(s) => s,
            Err(e) => {
                return Err(e);
            },
        };
        proof {
            assert(items.drop_first().len() == items.len() - 1);
        }
        let cmd = if is_command(&cmd_name, "ping") {
            Command::Ping(Ping)
        } else if is_command(&cmd_name, "get") {
            proof {
                if items.len() >= 2 {
                    assert(items.drop_first()[0] == items[1]);
                }
            }
            let key = match parser.next_string() {
                Ok(s) => s,
                Err(e) => {
                    return Err(e);
                },
            };
            Command::Get(Get::new(key))
        } else if is_command(&cmd_name, "set") {
            proof {
                if items.len() >= 2 {
                    assert(items.drop_first()[0] == items[1]);
                }
                if items.len() >= 3 {
                    assert(items.drop_first().drop_first()[0] == items[2]);
                }
                if items.len() >= 4 {
                    assert(items.drop_first().drop_first().drop_first()[0] == items[3]);
                }
            }
            let key = match parser.next_string() {
                Ok(s) => s,
                Err(e) => {
                    return Err(e);
                },
            };
            let value = match parser.next_bytes() {
                Ok(v) => v,
                Err(e) => {
                    return Err(e);
                },
            };
            match parser.next_int() {
                Ok(exp) => {
                    if exp < 0 {
                        return Err(ParseError::Other(String::from_str(
                            "the expiration must not be negative",
                        )));
                    }
                    Command::SetCmd(SetCmd::new(key, value, Option::Some(exp as u64)))
                },
                Err(ParseError::EndOfStream) => Command::SetCmd(SetCmd::new(key, value, Option::None)),
                Err(e) => {
                    return Err(e);
                },
            }
        } else {
            let mut msg = String::from_str("unrecognized command '");
            msg.append(cmd_name.as_str());
            msg.append("'");
            return Err(ParseError::Other(msg));
        };
        match parser.check_finished() {
            Ok(_) => Ok(cmd),
            Err(e) => Err(e),
        }
    }
}

/// The reply `get` sends: a one-element array holding the value on a
/// hit, the null frame on a miss.
pub open spec fn get_reply(o: Option<Seq<u8>>) -> FrameData {
    match o {
        Option::Some(v) => FrameData::Array(seq![FrameData::Bulk(v)]),
        Option::None => FrameData::Null,
    }
}

/// A TTL in whole seconds as milliseconds on the clock, capped at its
/// end.
pub open spec fn ttl_ms_of_secs(ttl: Option<int>) -> Option<u64> {
    match ttl {
        Option::None => Option::None,
        Option::Some(s) => Option::Some(
            if 0 <= s && s * 1000 <= u64::MAX {
                (s * 1000) as u64
            } else {
                u64::MAX
            },
        ),
    }
}

/// Everything executing one command promises, by command kind.
pub open spec fn command_post(
    c: CommandData,
    pre: Database,
    post: Database,
    now: u64,
    reply: FrameData,
    wake: bool,
) -> bool {
    match c {
        CommandData::Ping => post == pre && reply == FrameData::Simple("pong"@) && !wake,
        CommandData::Get(k) => post == pre && reply == get_reply(pre.lookup(k, now)) && !wake,
        CommandData::SetCmd(k, v, ttl) => set_post(pre, post, k, v, now, ttl_ms_of_secs(ttl), wake)
            && reply == FrameData::Simple("OK"@),
    }
}

impl Ping {
    /// The reply to a ping.
    pub fn execute(&self) -> (r: Frame)
        ensures
            r.data() == FrameData::Simple("pong"@),
    {
        Frame::into_simple("pong")
    }

    /// The request frame a client sends for a ping.
    pub fn get_frame() -> (f: Frame)
        ensures
            f.data() == FrameData::Array(seq![FrameData::Simple("ping"@)]),
    {
        let mut v: Vec<Frame> = Vec::new();
        v.push(Frame::into_simple("ping"));
        proof {
            lemma_frames_data_push(Seq::<Frame>::empty(), v@[0]);
            assert(v@ =~= Seq::<Frame>::empty().push(v@[0]));
            assert(frames_data(v@) =~= seq![FrameData::Simple("ping"@)]);
        }
        Frame::Array(v)
    }
}

impl Get {
    /// Reads the key at time `now` and returns the reply frame.
    pub fn execute(&self, db: &Database, now: u64) -> (r: Frame)
        ensures
            r.data() == get_reply(db.lookup(self.key_view(), now)),
    {
        match db.get(self.key.as_str(), now) {
            Option::Some(value) => {
                let mut arr: Vec<Frame> = Vec::new();
                arr.push(Frame::Bulk(value));
                proof {
                    lemma_frames_data_push(Seq::<Frame>::empty(), arr@[0]);
                    assert(arr@ =~= Seq::<Frame>::empty().push(arr@[0]));
                    assert(frames_data(arr@) =~= seq![arr@[0].data()]);
                }
                Frame::Array(arr)
            },
            Option::None => Frame::Null,
        }
    }

    /// The request frame a client sends to read `key`.
    pub fn get_frame(key: &str) -> (f: Frame)
        ensures
            f.data() == FrameData::Array(
                seq![FrameData::Simple("get"@), FrameData::Bulk(encode_utf8(key@))],
            ),
    {
        let data = key.as_bytes_vec();
        let mut v: Vec<Frame> = Vec::new();
        v.push(Frame::into_simple("get"));
        v.push(Frame::Bulk(data));
        proof {
            lemma_frames_data_push(Seq::<Frame>::empty(), v@[0]);
            lemma_frames_data_push(Seq::<Frame>::empty().push(v@[0]), v@[1]);
            assert(v@ =~= Seq::<Frame>::empty().push(v@[0]).push(v@[1]));
            assert(frames_data(v@) =~= seq![v@[0].data(), v@[1].data()]);
        }
        Frame::Array(v)
    }
}

impl SetCmd {
    /// Stores the value at time `now`; the reply frame comes with the
    /// sweeper wake flag.
    pub fn execute(self, db: &mut Database, now: u64) -> (r: (Frame, bool))
        requires
            old(db).wf(),
        ensures
            set_post(
                *old(db),
                *final(db),
                self.key_view(),
                self.value_view(),
                now,
                ttl_ms_of_secs(self.expiration_view()),
                r.1,
            ),
            r.0.data() == FrameData::Simple("OK"@),
    {
        let ttl_ms = match self.expiration {
            Option::Some(s) => Option::Some(
                if s <= u64::MAX / 1000 {
                    s * 1000
                } else {
                    u64::MAX
                },
            ),
            Option::None => Option::None,
        };
        let wake = db.set(self.key, self.value, now, ttl_ms);
        (Frame::into_simple("OK"), wake)
    }

    /// The request frame a client sends to store `value` under `key`,
    /// with the TTL in whole seconds as a trailing integer.
    pub fn get_frame(key: &str, value: Vec<u8>, expiration: Option<u64>) -> (f: Frame)
        requires
            expiration matches Option::Some(e) ==> e <= i64::MAX,
        ensures
            f.data() == FrameData::Array(
                match expiration {
                    Option::Some(e) => seq![
                        FrameData::Simple("set"@),
                        FrameData::Simple(key@),
                        FrameData::Bulk(value@),
                        FrameData::Integer(e as int),
                    ],
                    Option::None => seq![
                        FrameData::Simple("set"@),
                        FrameData::Simple(key@),
                        FrameData::Bulk(value@),
                    ],
                },
            ),
    {
        let mut v: Vec<Frame> = Vec::new();
        v.push(Frame::into_simple("set"));
        v.push(Frame::into_simple(key));
        v.push(Frame::Bulk(value));
        proof {
            lemma_frames_data_push(Seq::<Frame>::empty(), v@[0]);
            lemma_frames_data_push(Seq::<Frame>::empty().push(v@[0]), v@[1]);
            lemma_frames_data_push(Seq::<Frame>::empty().push(v@[0]).push(v@[1]), v@[2]);
            assert(v@ =~= Seq::<Frame>::empty().push(v@[0]).push(v@[1]).push(v@[2]));
            assert(frames_data(v@) =~= seq![v@[0].data(), v@[1].data(), v@[2].data()]);
        }
        match expiration {
            Option::Some(e) => {
                let ghost v3 = v@;
                v.push(Frame::Integer(e as i64));
                proof {
                    lemma_frames_data_push(v3, v@[3]);
                    assert(v@ =~= v3.push(v@[3]));
                    assert(frames_data(v@) =~= seq![
                        v@[0].data(),
                        v@[1].data(),
                        v@[2].data(),
                        v@[3].data(),
                    ]);
                }
                Frame::Array(v)
            },
            Option::None => Frame::Array(v),
        }
    }
}

impl Command {
    /// Runs the command against the store at time `now`, returning the
    /// reply frame and whether the sweeper must be woken.
    pub fn execute(self, db: &mut Database, now: u64) -> (r: (Frame, bool))
        requires
            old(db).wf(),
        ensures
            final(db).wf(),
            command_post(self.data(), *old(db), *final(db), now, r.0.data(), r.1),
    {
        match self {
            Command::Ping(cmd) => (cmd.execute(), false),
            Command::Get(cmd) => (cmd.execute(db, now), false),
            Command::SetCmd(cmd) => cmd.execute(db, now),
        }
    }
}

} // verus!
