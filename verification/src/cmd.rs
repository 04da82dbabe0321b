//! Commands: reading them out of a request frame, and building replies.
//!
//! A request is an array frame whose first entry names the command,
//! case-insensitively. `spec_command` is the mathematical reading of a
//! token list; `Command::from_frame` is the executable reader and returns
//! exactly what `spec_command` names, or an error exactly when
//! `spec_command` refuses.

use crate::bytes_util::{bytes_eq, lower_bytes, to_lower_vec};
use crate::db::State;
use crate::encode::push_all;
use crate::frame::{Frame, FrameModel};
use crate::parse::{token_int, Parse, ParseError};
use crate::pubsub::PubSub;
use vstd::prelude::*;
use vstd::utf8::valid_utf8;

verus! {

/// One request, ready to apply.
pub enum Command {
    Get { key: Vec<u8> },
    /// The SET command, named `Put` so as not to shadow the prelude's
    /// `Set` type.
    Put { key: Vec<u8>, value: Vec<u8>, expire_ms: Option<u64> },
    Publish { channel: Vec<u8>, message: Vec<u8> },
    Subscribe { channels: Vec<Vec<u8>> },
    /// Carries the command name as the client spelled it, so a stray
    /// request outside subscribe mode can be answered by that name.
    Unsubscribe { name: Vec<u8>, channels: Vec<Vec<u8>> },
    Ping { msg: Option<Vec<u8>> },
    Unknown { name: Vec<u8> },
}

/// The mathematical shape of a command.
pub enum CommandModel {
    Get { key: Seq<u8> },
    /// The SET command, named `Put` so as not to shadow the prelude's
    /// `Set` type.
    Put { key: Seq<u8>, value: Seq<u8>, expire_ms: Option<u64> },
    Publish { channel: Seq<u8>, message: Seq<u8> },
    Subscribe { channels: Seq<Seq<u8>> },
    /// Carries the command name as the client spelled it, so a stray
    /// request outside subscribe mode can be answered by that name.
    Unsubscribe { name: Seq<u8>, channels: Seq<Seq<u8>> },
    Ping { msg: Option<Seq<u8>> },
    Unknown { name: Seq<u8> },
}

impl View for Command {
    type V = CommandModel;

    open spec fn view(&self) -> CommandModel {
        match self {
            Command::Get { key } => CommandModel::Get { key: key@ },
            Command::Put { key, value, expire_ms } => CommandModel::Put {
                key: key@,
                value: value@,
                expire_ms: *expire_ms,
            },
            Command::Publish { channel, message } => CommandModel::Publish {
                channel: channel@,
                message: message@,
            },
            Command::Subscribe { channels } => CommandModel::Subscribe {
                channels: channels.deep_view(),
            },
            Command::Unsubscribe { name, channels } => CommandModel::Unsubscribe {
                name: name@,
                channels: channels.deep_view(),
            },
            Command::Ping { msg } => CommandModel::Ping {
                msg: match msg {
                    Some(m) => Some(m@),
                    None => None,
                },
            },
            Command::Unknown { name } => CommandModel::Unknown { name: name@ },
        }
    }
}

/// The bytes a token hands over raw: a text or byte-string frame's
/// payload, unexamined.
pub open spec fn token_text(v: FrameModel) -> Option<Seq<u8>> {
    match v {
        FrameModel::Simple(s) => Some(s),
        FrameModel::Bulk(s) => Some(s),
        _ => None,
    }
}

/// The text a token carries: a simple string as it stands (the wire
/// already validated it), a byte string only when its bytes are UTF-8.
pub open spec fn token_str(v: FrameModel) -> Option<Seq<u8>> {
    match v {
        FrameModel::Simple(s) => Some(s),
        FrameModel::Bulk(s) => if valid_utf8(s) {
            Some(s)
        } else {
            None
        },
        _ => None,
    }
}

pub open spec fn name_get() -> Seq<u8> {
    seq![103u8, 101u8, 116u8]
}

pub open spec fn name_set() -> Seq<u8> {
    seq![115u8, 101u8, 116u8]
}

pub open spec fn name_publish() -> Seq<u8> {
    seq![112u8, 117u8, 98u8, 108u8, 105u8, 115u8, 104u8]
}

pub open spec fn name_subscribe() -> Seq<u8> {
    seq![115u8, 117u8, 98u8, 115u8, 99u8, 114u8, 105u8, 98u8, 101u8]
}

pub open spec fn name_unsubscribe() -> Seq<u8> {
    seq![117u8, 110u8, 115u8, 117u8, 98u8, 115u8, 99u8, 114u8, 105u8, 98u8, 101u8]
}

pub open spec fn name_ping() -> Seq<u8> {
    seq![112u8, 105u8, 110u8, 103u8]
}

pub open spec fn opt_ex() -> Seq<u8> {
    seq![101u8, 120u8]
}

pub open spec fn opt_px() -> Seq<u8> {
    seq![112u8, 120u8]
}

/// The reading of a `GET` request: exactly one key token.
pub open spec fn spec_get(es: Seq<FrameModel>) -> Option<CommandModel> {
    if es.len() == 2 && token_str(es[1]) is Some {
        Some(CommandModel::Get { key: token_str(es[1])->Some_0 })
    } else {
        None
    }
}

/// The reading of a `SET` request: key and value, then either nothing or
/// an `EX` (seconds) or `PX` (milliseconds) expiry. The count must be a
/// positive number, and an `EX` count must stay in range once scaled to
/// milliseconds.
pub open spec fn spec_set(es: Seq<FrameModel>) -> Option<CommandModel> {
    if es.len() >= 3 && token_str(es[1]) is Some && token_text(es[2]) is Some {
        let key = token_str(es[1])->Some_0;
        let value = token_text(es[2])->Some_0;
        if es.len() == 3 {
            Some(CommandModel::Put { key, value, expire_ms: None })
        } else if es.len() == 5 && token_str(es[3]) is Some {
            let tag = lower_bytes(token_str(es[3])->Some_0);
            match token_int(es[4]) {
                Some(n) => if tag == opt_ex() && 1 <= n && n <= u64::MAX as int / 1000 {
                    Some(
                        CommandModel::Put {
                            key,
                            value,
                            expire_ms: Some((n * 1000) as u64),
                        },
                    )
                } else if tag == opt_px() && 1 <= n {
                    Some(CommandModel::Put { key, value, expire_ms: Some(n) })
                } else {
                    None
                },
                None => None,
            }
        } else {
            None
        }
    } else {
        None
    }
}

/// The reading of a `PUBLISH` request: a channel and a message.
pub open spec fn spec_publish(es: Seq<FrameModel>) -> Option<CommandModel> {
    if es.len() == 3 && token_str(es[1]) is Some && token_text(es[2]) is Some {
        Some(
            CommandModel::Publish {
                channel: token_str(es[1])->Some_0,
                message: token_text(es[2])->Some_0,
            },
        )
    } else {
        None
    }
}

/// The channel tokens after the command name, when all of them are text.
pub open spec fn spec_channels(es: Seq<FrameModel>) -> Option<Seq<Seq<u8>>> {
    if forall|i: int| 1 <= i < es.len() ==> token_str(#[trigger] es[i]) is Some {
        Some(Seq::new((es.len() - 1) as nat, |i: int| token_str(es[i + 1])->Some_0))
    } else {
        None
    }
}

/// The reading of a `SUBSCRIBE` request: one channel or more.
pub open spec fn spec_subscribe(es: Seq<FrameModel>) -> Option<CommandModel> {
    match spec_channels(es) {
        Some(chs) => if chs.len() >= 1 {
            Some(CommandModel::Subscribe { channels: chs })
        } else {
            None
        },
        None => None,
    }
}

/// The reading of an `UNSUBSCRIBE` request: any number of channels;
/// none at all means every subscribed channel. The name as the client
/// spelled it is kept, for the reply a stray request earns.
pub open spec fn spec_unsubscribe(raw: Seq<u8>, es: Seq<FrameModel>) -> Option<
    CommandModel,
> {
    match spec_channels(es) {
        Some(chs) => Some(CommandModel::Unsubscribe { name: raw, channels: chs }),
        None => None,
    }
}

/// The reading of a `PING` request: an optional message.
pub open spec fn spec_ping(es: Seq<FrameModel>) -> Option<CommandModel> {
    if es.len() == 1 {
        Some(CommandModel::Ping { msg: None })
    } else if es.len() == 2 && token_text(es[1]) is Some {
        Some(CommandModel::Ping { msg: Some(token_text(es[1])->Some_0) })
    } else {
        None
    }
}

/// The mathematical reading of a request's token list. Nothing —
/// a protocol violation — exactly when no rule below applies. A name
/// that is no command at all reads as `Unknown`, whatever follows it.
pub open spec fn spec_command(es: Seq<FrameModel>) -> Option<CommandModel> {
    if es.len() == 0 {
        None
    } else {
        match token_str(es[0]) {
            None => None,
            Some(raw) => {
                let name = lower_bytes(raw);
                if name == name_get() {
                    spec_get(es)
                } else if name == name_set() {
                    spec_set(es)
                } else if name == name_publish() {
                    spec_publish(es)
                } else if name == name_subscribe() {
                    spec_subscribe(es)
                } else if name == name_unsubscribe() {
                    spec_unsubscribe(raw, es)
                } else if name == name_ping() {
                    spec_ping(es)
                } else {
                    Some(CommandModel::Unknown { name: raw })
                }
            },
        }
    }
}

proof fn lemma_skip_step(es: Seq<FrameModel>, k: int)
    requires
        0 <= k < es.len(),
    ensures
        es.skip(k)[0] == es[k],
        es.skip(k).skip(1) == es.skip(k + 1),
        es.skip(k).len() == es.len() - k,
{
    assert(es.skip(k).skip(1) =~= es.skip(k + 1));
}

fn kw_get() -> (r: Vec<u8>)
    ensures
        r@ == name_get(),
{
    let mut v: Vec<u8> = Vec::new();
    v.push(103);
    v.push(101);
    v.push(116);
    proof {
        assert(v@ =~= name_get());
    }
    v
}

fn kw_set() -> (r: Vec<u8>)
    ensures
        r@ == name_set(),
{
    let mut v: Vec<u8> = Vec::new();
    v.push(115);
    v.push(101);
    v.push(116);
    proof {
        assert(v@ =~= name_set());
    }
    v
}

fn kw_publish() -> (r: Vec<u8>)
    ensures
        r@ == name_publish(),
{
    let mut v: Vec<u8> = Vec::new();
    v.push(112);
    v.push(117);
    v.push(98);
    v.push(108);
    v.push(105);
    v.push(115);
    v.push(104);
    proof {
        assert(v@ =~= name_publish());
    }
    v
}

fn kw_subscribe() -> (r: Vec<u8>)
    ensures
        r@ == name_subscribe(),
{
    let mut v: Vec<u8> = Vec::new();
    v.push(115);
    v.push(117);
    v.push(98);
    v.push(115);
    v.push(99);
    v.push(114);
    v.push(105);
    v.push(98);
    v.push(101);
    proof {
        assert(v@ =~= name_subscribe());
    }
    v
}

fn kw_unsubscribe() -> (r: Vec<u8>)
    ensures
        r@ == name_unsubscribe(),
{
    let mut v: Vec<u8> = Vec::new();
    v.push(117);
    v.push(110);
    v.push(115);
    v.push(117);
    v.push(98);
    v.push(115);
    v.push(99);
    v.push(114);
    v.push(105);
    v.push(98);
    v.push(101);
    proof {
        assert(v@ =~= name_unsubscribe());
    }
    v
}

fn kw_ping() -> (r: Vec<u8>)
    ensures
        r@ == name_ping(),
{
    let mut v: Vec<u8> = Vec::new();
    v.push(112);
    v.push(105);
    v.push(110);
    v.push(103);
    proof {
        assert(v@ =~= name_ping());
    }
    v
}

fn kw_ex() -> (r: Vec<u8>)
    ensures
        r@ == opt_ex(),
{
    let mut v: Vec<u8> = Vec::new();
    v.push(101);
    v.push(120);
    proof {
        assert(v@ =~= opt_ex());
    }
    v
}

fn kw_px() -> (r: Vec<u8>)
    ensures
        r@ == opt_px(),
{
    let mut v: Vec<u8> = Vec::new();
    v.push(112);
    v.push(120);
    proof {
        assert(v@ =~= opt_px());
    }
    v
}

/// Reads the channel tokens left on the cursor, after `consumed` tokens
/// of `es` have gone.
fn read_channels(parse: &mut Parse, Ghost(es): Ghost<Seq<FrameModel>>) -> (r: Result<
    Vec<Vec<u8>>,
    ParseError,
>)
    requires
        old(parse).remaining() == es.skip(1),
        1 <= es.len(),
    ensures
        match r {
            Ok(chs) => spec_channels(es) == Some(chs.deep_view()),
            Err(_) => spec_channels(es) is None,
        },
{
    let mut channels: Vec<Vec<u8>> = Vec::new();
    loop
        invariant
            1 + channels@.len() <= es.len(),
            parse.remaining() == es.skip(1 + channels@.len() as int),
            forall|i: int|
                0 <= i < channels@.len() ==> token_str(#[trigger] es[i + 1]) == Some(
                    channels@[i]@,
                ),
        decreases es.len() - channels@.len(),
    {
        let ghost k: int = 1 + channels@.len() as int;
        proof {
            if k < es.len() {
                lemma_skip_step(es, k);
            } else {
                assert(es.skip(k).len() == 0);
            }
        }
        match parse.next_string() {
            Ok(ch) => {
                channels.push(ch);
            },
            Err(ParseError::EndOfStream) => {
                proof {
                    assert(es.len() == k);
                    assert forall|i: int|
                        1 <= i < es.len() implies token_str(#[trigger] es[i]) is Some by {
                        assert(token_str(es[(i - 1) + 1]) == Some(channels@[i - 1]@));
                        assert(es[(i - 1) + 1] == es[i]);
                    }
                    let chs = spec_channels(es)->Some_0;
                    assert forall|i: int|
                        0 <= i < chs.len() implies chs[i] == channels.deep_view()[i] by {
                        assert(token_str(es[i + 1]) == Some(channels@[i]@));
                    }
                    assert(chs.len() == channels.deep_view().len());
                    assert(chs =~= channels.deep_view());
                }
                return Ok(channels);
            },
            Err(e) => {
                proof {
                    assert(token_str(es[k]) is None);
                }
                return Err(e);
            },
        }
    }
}

impl Command {
    /// Reads one request frame as a command: exactly the reading
    /// `spec_command` gives of the array's tokens, or an error exactly
    /// when the frame is no array or `spec_command` refuses its tokens.
    pub fn from_frame(frame: Frame) -> (r: Result<Command, ParseError>)
        ensures
            match r {
                Ok(c) => frame@ matches FrameModel::Array(es) && spec_command(es) == Some(
                    c@,
                ),
                Err(_) => !(frame@ is Array) || spec_command(frame@->Array_0) is None,
            },
    {
        let ghost fv = frame@;
        let mut parse = match Parse::new(frame) {
            Ok(p) => p,
            Err(e) => {
                return Err(e);
            },
        };
        let ghost es = fv->Array_0;
        proof {
            assert(es.skip(0) =~= es);
        }
        let raw = match parse.next_string() {
            Ok(raw) => raw,
            Err(e) => {
                return Err(e);
            },
        };
        proof {
            lemma_skip_step(es, 0);
            assert(token_str(es[0]) == Some(raw@));
        }
        let lname = to_lower_vec(raw.as_slice());
        if bytes_eq(lname.as_slice(), kw_get().as_slice()) {
            let key = match parse.next_string() {
                Ok(k) => k,
                Err(e) => {
                    proof {
                        if 1 < es.len() {
                            lemma_skip_step(es, 1);
                        }
                    }
                    return Err(e);
                },
            };
            proof {
                lemma_skip_step(es, 1);
            }
            match parse.finish() {
                Ok(_) => Ok(Command::Get { key }),
                Err(e) => Err(e),
            }
        } else if bytes_eq(lname.as_slice(), kw_set().as_slice()) {
            Command::parse_set(parse, Ghost(es))
        } else if bytes_eq(lname.as_slice(), kw_publish().as_slice()) {
            let channel = match parse.next_string() {
                Ok(c) => c,
                Err(e) => {
                    proof {
                        if 1 < es.len() {
                            lemma_skip_step(es, 1);
                        }
                    }
                    return Err(e);
                },
            };
            proof {
                lemma_skip_step(es, 1);
            }
            let message = match parse.next_bytes() {
                Ok(m) => m,
                Err(e) => {
                    proof {
                        if 2 < es.len() {
                            lemma_skip_step(es, 2);
                        }
                    }
                    return Err(e);
                },
            };
            proof {
                lemma_skip_step(es, 2);
            }
            match parse.finish() {
                Ok(_) => Ok(Command::Publish { channel, message }),
                Err(e) => Err(e),
            }
        } else if bytes_eq(lname.as_slice(), kw_subscribe().as_slice()) {
            match read_channels(&mut parse, Ghost(es)) {
                Ok(channels) => {
                    if channels.len() == 0 {
                        Err(ParseError::EndOfStream)
                    } else {
                        Ok(Command::Subscribe { channels })
                    }
                },
                Err(e) => Err(e),
            }
        } else if bytes_eq(lname.as_slice(), kw_unsubscribe().as_slice()) {
            match read_channels(&mut parse, Ghost(es)) {
                Ok(channels) => Ok(Command::Unsubscribe { name: raw, channels }),
                Err(e) => Err(e),
            }
        } else if bytes_eq(lname.as_slice(), kw_ping().as_slice()) {
            match parse.next_bytes() {
                Ok(m) => {
                    proof {
                        lemma_skip_step(es, 1);
                    }
                    match parse.finish() {
                        Ok(_) => Ok(Command::Ping { msg: Some(m) }),
                        Err(e) => Err(e),
                    }
                },
                Err(ParseError::EndOfStream) => Ok(Command::Ping { msg: None }),
                Err(e) => {
                    proof {
                        if 1 < es.len() {
                            lemma_skip_step(es, 1);
                        }
                    }
                    Err(e)
                },
            }
        } else {
            Ok(Command::Unknown { name: raw })
        }
    }

    /// The tail of a `SET` request, after its name token.
    fn parse_set(parse: Parse, Ghost(es): Ghost<Seq<FrameModel>>) -> (r: Result<
        Command,
        ParseError,
    >)
        requires
            parse.remaining() == es.skip(1),
            1 <= es.len(),
            es.len() > 0 && token_str(es[0]) is Some && lower_bytes(
                token_str(es[0])->Some_0,
            ) == name_set(),
        ensures
            match r {
                Ok(c) => spec_command(es) == Some(c@),
                Err(_) => spec_command(es) is None,
            },
    {
        let mut parse = parse;
        let key = match parse.next_string() {
            Ok(k) => k,
            Err(e) => {
                proof {
                    if 1 < es.len() {
                        lemma_skip_step(es, 1);
                    }
                }
                return Err(e);
            },
        };
        proof {
            lemma_skip_step(es, 1);
        }
        let value = match parse.next_bytes() {
            Ok(v) => v,
            Err(e) => {
                proof {
                    if 2 < es.len() {
                        lemma_skip_step(es, 2);
                    }
                }
                return Err(e);
            },
        };
        proof {
            lemma_skip_step(es, 2);
        }
        let tag = match parse.next_string() {
            Ok(t) => t,
            Err(ParseError::EndOfStream) => {
                return Ok(Command::Put { key, value, expire_ms: None });
            },
            Err(e) => {
                proof {
                    if 3 < es.len() {
                        lemma_skip_step(es, 3);
                    }
                }
                return Err(e);
            },
        };
        proof {
            lemma_skip_step(es, 3);
        }
        let ltag = to_lower_vec(tag.as_slice());
        let is_ex = bytes_eq(ltag.as_slice(), kw_ex().as_slice());
        let is_px = bytes_eq(ltag.as_slice(), kw_px().as_slice());
        if !is_ex && !is_px {
            return Err(ParseError::WrongType);
        }
        let n = match parse.next_int() {
            Ok(n) => n,
            Err(e) => {
                proof {
                    if 4 < es.len() {
                        lemma_skip_step(es, 4);
                    }
                }
                return Err(e);
            },
        };
        proof {
            lemma_skip_step(es, 4);
        }
        match parse.finish() {
            Ok(_) => {},
            Err(e) => {
                return Err(e);
            },
        }
        proof {
            assert(opt_ex() != opt_px()) by {
                assert(opt_ex()[0] == 101 && opt_px()[0] == 112);
            }
        }
        if n == 0 {
            return Err(ParseError::BadNumber);
        }
        if is_ex {
            if n > u64::MAX / 1000 {
                return Err(ParseError::BadNumber);
            }
            Ok(Command::Put { key, value, expire_ms: Some(n * 1000) })
        } else {
            Ok(Command::Put { key, value, expire_ms: Some(n) })
        }
    }
}

/// The reply text `OK`.
pub open spec fn text_ok_reply() -> Seq<u8> {
    seq![79u8, 75u8]
}

/// The reply text `PONG`.
pub open spec fn text_pong() -> Seq<u8> {
    seq![80u8, 79u8, 78u8, 71u8]
}

/// The ack word `message`.
pub open spec fn name_message() -> Seq<u8> {
    seq![109u8, 101u8, 115u8, 115u8, 97u8, 103u8, 101u8]
}

/// The text `ERR unknown command '`, which opens the unknown-command
/// error reply; the command's own name and a closing quote follow it.
pub open spec fn err_unknown_prefix() -> Seq<u8> {
    seq![
        69u8, 82u8, 82u8, 32u8, 117u8, 110u8, 107u8, 110u8, 111u8, 119u8, 110u8, 32u8,
        99u8, 111u8, 109u8, 109u8, 97u8, 110u8, 100u8, 32u8, 39u8,
    ]
}

/// The reply to a successful SET: the simple string `OK`.
pub fn ok_reply() -> (r: Frame)
    ensures
        r@ == FrameModel::Simple(text_ok_reply()),
{
    let mut v: Vec<u8> = Vec::new();
    v.push(79);
    v.push(75);
    proof {
        assert(v@ =~= text_ok_reply());
    }
    Frame::Simple(v)
}

/// The reply to PING: `PONG` without a message, the message itself as a
/// byte string with one.
pub fn apply_ping(msg: Option<Vec<u8>>) -> (r: Frame)
    ensures
        match msg {
            None => r@ == FrameModel::Simple(text_pong()),
            Some(m) => r@ == FrameModel::Bulk(m@),
        },
{
    match msg {
        None => {
            let mut v: Vec<u8> = Vec::new();
            v.push(80);
            v.push(79);
            v.push(78);
            v.push(71);
            proof {
                assert(v@ =~= text_pong());
            }
            Frame::Simple(v)
        },
        Some(m) => Frame::Bulk(m),
    }
}

/// The reply to a command the server does not know: an error naming it.
pub fn unknown_reply(name: &[u8]) -> (r: Frame)
    ensures
        r@ == FrameModel::Error(err_unknown_prefix() + name@ + seq![39u8]),
{
    let mut v: Vec<u8> = Vec::new();
    v.push(69);
    v.push(82);
    v.push(82);
    v.push(32);
    v.push(117);
    v.push(110);
    v.push(107);
    v.push(110);
    v.push(111);
    v.push(119);
    v.push(110);
    v.push(32);
    v.push(99);
    v.push(111);
    v.push(109);
    v.push(109);
    v.push(97);
    v.push(110);
    v.push(100);
    v.push(32);
    v.push(39);
    proof {
        assert(v@ =~= err_unknown_prefix());
    }
    push_all(&mut v, name);
    v.push(39);
    proof {
        assert(v@ =~= err_unknown_prefix() + name@ + seq![39u8]);
    }
    Frame::Error(v)
}

/// GET applied to the store: the value as a byte string, or null when
/// the key is unbound.
pub fn apply_get(state: &State, key: &[u8]) -> (r: Frame)
    requires
        state.inv(),
    ensures
        state.entries().contains_key(key@) ==> r@ == FrameModel::Bulk(
            state.entries()[key@].0,
        ),
        !state.entries().contains_key(key@) ==> r@ == FrameModel::Null,
{
    match state.get(key) {
        Some(d) => Frame::Bulk(d),
        None => Frame::Null,
    }
}

/// The absolute instant a time-to-live reaches, from `now`: `now + ttl`
/// milliseconds, held at the top of the range when the sum would pass it.
pub open spec fn spec_deadline(now: u64, ttl: Option<u64>) -> Option<u64> {
    match ttl {
        Some(t) => if now + t <= u64::MAX {
            Some((now + t) as u64)
        } else {
            Some(u64::MAX)
        },
        None => None,
    }
}

/// SET applied to the store: binds the key, computes the expiry instant
/// from `now`, replies `OK`, and says whether the reaper must be woken.
pub fn apply_set(
    state: &mut State,
    key: Vec<u8>,
    value: Vec<u8>,
    expire_ms: Option<u64>,
    now: u64,
) -> (r: (Frame, bool))
    requires
        old(state).inv(),
    ensures
        final(state).inv(),
        final(state).shutting_down() == old(state).shutting_down(),
        r.0@ == FrameModel::Simple(text_ok_reply()),
        final(state).entries() == old(state).entries().insert(
            key@,
            (value@, spec_deadline(now, expire_ms)),
        ),
        r.1 == (match spec_deadline(now, expire_ms) {
            Some(w) => match old(state).next_due() {
                Some(e) => e > w,
                None => true,
            },
            None => false,
        }),
{
    let expires_at: Option<u64> = match expire_ms {
        Some(t) => if t <= u64::MAX - now {
            Some(now + t)
        } else {
            Some(u64::MAX)
        },
        None => None,
    };
    let notify = state.set(key, value, expires_at);
    (ok_reply(), notify)
}

/// PUBLISH applied to the registry: the message goes to every live
/// subscriber of the channel, and the reply is their count — zero when
/// the channel does not exist or nobody listens.
pub fn apply_publish(ps: &PubSub, channel: &[u8], message: Vec<u8>) -> (r: (Frame, usize))
    requires
        ps.inv(),
    ensures
        r.0@ == FrameModel::Integer(r.1 as u64),
        !ps.has_channel(channel@) ==> r.1 == 0,
        r.1 >= 1 ==> ps.has_channel(channel@),
{
    let n = ps.publish(channel, message);
    (Frame::Integer(n as u64), n)
}

/// The streaming ack to one subscribed channel:
/// `["subscribe", channel, count]`.
pub fn subscribe_ack(channel: &[u8], count: u64) -> (r: Frame)
    ensures
        r@ == FrameModel::Array(
            seq![
                FrameModel::Bulk(name_subscribe()),
                FrameModel::Bulk(channel@),
                FrameModel::Integer(count),
            ],
        ),
{
    let mut f = Frame::array();
    f.push_bulk(kw_subscribe());
    f.push_bulk(vstd::slice::slice_to_vec(channel));
    f.push_int(count);
    proof {
        assert(Seq::<FrameModel>::empty().push(FrameModel::Bulk(name_subscribe())).push(
            FrameModel::Bulk(channel@),
        ).push(FrameModel::Integer(count)) =~= seq![
            FrameModel::Bulk(name_subscribe()),
            FrameModel::Bulk(channel@),
            FrameModel::Integer(count),
        ]);
    }
    f
}

/// The streaming ack to one unsubscribed channel:
/// `["unsubscribe", channel, count]`.
pub fn unsubscribe_ack(channel: &[u8], count: u64) -> (r: Frame)
    ensures
        r@ == FrameModel::Array(
            seq![
                FrameModel::Bulk(name_unsubscribe()),
                FrameModel::Bulk(channel@),
                FrameModel::Integer(count),
            ],
        ),
{
    let mut f = Frame::array();
    f.push_bulk(kw_unsubscribe());
    f.push_bulk(vstd::slice::slice_to_vec(channel));
    f.push_int(count);
    proof {
        assert(Seq::<FrameModel>::empty().push(
            FrameModel::Bulk(name_unsubscribe()),
        ).push(FrameModel::Bulk(channel@)).push(FrameModel::Integer(count)) =~= seq![
            FrameModel::Bulk(name_unsubscribe()),
            FrameModel::Bulk(channel@),
            FrameModel::Integer(count),
        ]);
    }
    f
}

/// A broadcast message passed on to the client:
/// `["message", channel, payload]`.
pub fn message_frame(channel: &[u8], payload: Vec<u8>) -> (r: Frame)
    ensures
        r@ == FrameModel::Array(
            seq![
                FrameModel::Bulk(name_message()),
                FrameModel::Bulk(channel@),
                FrameModel::Bulk(payload@),
            ],
        ),
{
    let mut w: Vec<u8> = Vec::new();
    w.push(109);
    w.push(101);
    w.push(115);
    w.push(115);
    w.push(97);
    w.push(103);
    w.push(101);
    proof {
        assert(w@ =~= name_message());
    }
    let mut f = Frame::array();
    f.push_bulk(w);
    f.push_bulk(vstd::slice::slice_to_vec(channel));
    f.push_bulk(payload);
    proof {
        assert(Seq::<FrameModel>::empty().push(FrameModel::Bulk(name_message())).push(
            FrameModel::Bulk(channel@),
        ).push(FrameModel::Bulk(payload@)) =~= seq![
            FrameModel::Bulk(name_message()),
            FrameModel::Bulk(channel@),
            FrameModel::Bulk(payload@),
        ]);
    }
    f
}

/// The channels one connection is subscribed to, in subscription order.
/// Adding is idempotent; removing a channel that is not there changes
/// nothing.
pub struct Subscriptions {
    channels: Vec<Vec<u8>>,
}

impl Subscriptions {
    /// The subscribed channel names, in subscription order.
    pub closed spec fn names(self) -> Seq<Seq<u8>> {
        self.channels@.map_values(|v: Vec<u8>| v@)
    }

    /// No channel is subscribed twice.
    pub closed spec fn inv(self) -> bool {
        forall|i: int, j: int|
            0 <= i < j < self.channels@.len() ==> (#[trigger] self.channels@[i])@ != (
            #[trigger] self.channels@[j])@
    }

    /// An empty subscription set.
    pub fn new() -> (r: Subscriptions)
        ensures
            r.inv(),
            r.names().len() == 0,
    {
        Subscriptions { channels: Vec::new() }
    }

    /// How many channels are subscribed.
    pub fn len(&self) -> (r: usize)
        ensures
            r == self.names().len(),
    {
        self.channels.len()
    }

    /// The position of `name` among the subscribed channels.
    fn find(&self, name: &[u8]) -> (r: Option<usize>)
        ensures
            match r {
                Some(i) => i < self.channels@.len() && self.channels@[i as int]@ == name@,
                None => forall|i: int|
                    0 <= i < self.channels@.len() ==> (#[trigger] self.channels@[i])@
                        != name@,
            },
    {
        let mut i: usize = 0;
        while i < self.channels.len()
            invariant
                0 <= i <= self.channels@.len(),
                forall|j: int| 0 <= j < i ==> (#[trigger] self.channels@[j])@ != name@,
            decreases self.channels@.len() - i,
        {
            if bytes_eq(self.channels[i].as_slice(), name) {
                return Some(i);
            }
            i = i + 1;
        }
        None
    }

    /// A copy of the subscribed channel names, in subscription order.
    pub fn channel_list(&self) -> (r: Vec<Vec<u8>>)
        ensures
            r@.len() == self.names().len(),
            forall|i: int| 0 <= i < r@.len() ==> (#[trigger] r@[i])@ == self.names()[i],
    {
        let mut r: Vec<Vec<u8>> = Vec::new();
        let mut i: usize = 0;
        while i < self.channels.len()
            invariant
                0 <= i <= self.channels@.len(),
                r@.len() == i,
                forall|j: int| 0 <= j < i ==> (#[trigger] r@[j])@ == self.names()[j],
            decreases self.channels@.len() - i,
        {
            r.push(vstd::slice::slice_to_vec(self.channels[i].as_slice()));
            i = i + 1;
        }
        r
    }

    /// Whether `name` is subscribed.
    pub fn contains(&self, name: &[u8]) -> (r: bool)
        ensures
            r == self.names().contains(name@),
    {
        match self.find(name) {
            Some(i) => {
                proof {
                    assert(self.names()[i as int] == name@);
                }
                true
            },
            None => {
                proof {
                    assert forall|j: int|
                        0 <= j < self.names().len() implies self.names()[j] != name@ by {
                        assert(self.names()[j] == self.channels@[j]@);
                    }
                }
                false
            },
        }
    }

    /// Subscribes `name`. True when it was new; subscribing a channel
    /// twice changes nothing.
    pub fn add(&mut self, name: Vec<u8>) -> (added: bool)
        requires
            old(self).inv(),
        ensures
            final(self).inv(),
            added == !old(self).names().contains(name@),
            added ==> final(self).names() == old(self).names().push(name@),
            !added ==> final(self).names() == old(self).names(),
    {
        let ghost nv = name@;
        if self.contains(name.as_slice()) {
            return false;
        }
        let ghost prev = self.channels@;
        self.channels.push(name);
        proof {
            assert(forall|j: int| 0 <= j < prev.len() ==> self.channels@[j] == prev[j]);
            assert(self.channels@[prev.len() as int]@ == nv);
            assert(self.names() =~= old(self).names().push(nv));
            assert forall|a: int, b: int|
                0 <= a < b < self.channels@.len() implies (#[trigger] self.channels@[
                a])@ != (#[trigger] self.channels@[b])@ by {
                if b < prev.len() {
                    assert(self.channels@[a] == prev[a]);
                    assert(self.channels@[b] == prev[b]);
                } else {
                    assert(self.channels@[b]@ == nv);
                    assert(self.channels@[a] == prev[a]);
                    if prev[a]@ == nv {
                        assert(old(self).names()[a] == nv);
                        assert(old(self).names().contains(nv));
                    }
                }
            }
        }
        true
    }

    /// Unsubscribes `name`. True when it was subscribed; removing an
    /// unsubscribed channel changes nothing. The order of the others is
    /// kept.
    pub fn remove(&mut self, name: &[u8]) -> (removed: bool)
        requires
            old(self).inv(),
        ensures
            final(self).inv(),
            removed == old(self).names().contains(name@),
            removed ==> final(self).names().len() == old(self).names().len() - 1,
            !removed ==> final(self).names() == old(self).names(),
            forall|c: Seq<u8>|
                final(self).names().contains(c) <==> old(self).names().contains(c) && c
                    != name@,
    {
        let ghost prev = self.channels@;
        match self.find(name) {
            Some(i) => {
                proof {
                    assert(old(self).names()[i as int] == name@);
                }
                self.channels.remove(i);
                proof {
                    let cur = self.channels@;
                    assert forall|a: int, b: int|
                        0 <= a < b < cur.len() implies (#[trigger] cur[a])@ != (
                    #[trigger] cur[b])@ by {
                        let oa: int = if a < i {
                            a
                        } else {
                            a + 1
                        };
                        let ob: int = if b < i {
                            b
                        } else {
                            b + 1
                        };
                        assert(cur[a] == prev[oa]);
                        assert(cur[b] == prev[ob]);
                    }
                    assert forall|c: Seq<u8>|
                        self.names().contains(c) implies old(self).names().contains(c)
                        && c != name@ by {
                        let j = choose|j: int|
                            0 <= j < self.names().len() && self.names()[j] == c;
                        let oj: int = if j < i {
                            j
                        } else {
                            j + 1
                        };
                        assert(cur[j] == prev[oj]);
                        assert(old(self).names()[oj] == c);
                    }
                    assert forall|c: Seq<u8>|
                        old(self).names().contains(c) && c != name@ implies self.names(
                        ).contains(c) by {
                        let j = choose|j: int|
                            0 <= j < old(self).names().len() && old(self).names()[j]
                                == c;
                        assert(prev[j]@ == c);
                        if j != i {
                            let nj: int = if j < i {
                                j
                            } else {
                                j - 1
                            };
                            assert(cur[nj] == prev[j]);
                            assert(self.names()[nj] == c);
                        }
                    }
                }
                true
            },
            None => {
                proof {
                    assert forall|j: int|
                        0 <= j < self.names().len() implies self.names()[j] != name@ by {
                        assert(self.names()[j] == self.channels@[j]@);
                    }
                    assert forall|c: Seq<u8>|
                        self.names().contains(c) implies old(self).names().contains(c)
                        && c != name@ by {
                        let j = choose|j: int|
                            0 <= j < self.names().len() && self.names()[j] == c;
                    }
                }
                false
            },
        }
    }
}

} // verus!
