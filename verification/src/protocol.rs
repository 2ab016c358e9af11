//! The length-prefixed wire protocol: request and response framing, and
//! the dispatch of a request's commands against the engine.

use vstd::prelude::*;
use crate::codec::{
    Command, CommandV, cmd_fits, spec_serialize, spec_be32, spec_read_u32, push_be32, read_be32,
    serialize, serialize_str, deserialize_str, spec_serialize_str, spec_record_len, str_fits,
};
use crate::kv_log::MAX_SEGMENT_SIZE;
use crate::errors::KvError;

verus! {

/// The protocol version this library speaks.
pub const PROTOCOL_VERSION: u8 = 1;

/// The kind of storage engine a server runs.
#[derive(Clone, Copy, PartialEq, Eq, Structural, Debug)]
pub enum EngineType {
    Kvs,
    Sled,
}

/// The fixed-size header that precedes a request's commands on the wire.
#[derive(Clone, Copy, PartialEq, Eq, Structural, Debug)]
pub struct RequestHeader {
    pub version: u8,
    pub keep_alive: u8,
    pub command_count: u16,
    pub body_size: u32,
    pub reserved: u32,
}

/// A parsed request: its header and the commands of its body.
pub struct Request {
    pub header: RequestHeader,
    pub commands: Vec<Command>,
}

/// The fixed-size header that precedes a response's results on the wire.
#[derive(Clone, Copy, PartialEq, Eq, Structural, Debug)]
pub struct ResponseHeader {
    pub version: u8,
    pub reserved_1: u8,
    pub command_count: u16,
    pub body_size: u32,
    pub reserved_2: u32,
}

/// One command's result: `Get` carries the value found, if any; the other
/// commands only acknowledge.
pub enum ResponseCommand {
    Put,
    Get { value: Option<String> },
    Remove,
    Reset,
}

/// A parsed response: its header and one result per command sent.
pub struct Response {
    pub header: ResponseHeader,
    pub commands: Vec<ResponseCommand>,
}

/// Big-endian encoding of the low 16 bits of `n`.
pub open spec fn spec_be16(n: int) -> Seq<u8> {
    seq![(((n / 0x100) % 0x100) as u8), ((n % 0x100) as u8)]
}

/// The value of the two bytes at `pos` read as a big-endian integer.
pub open spec fn spec_read_u16(data: Seq<u8>, pos: int) -> int {
    data[pos] * 0x100 + data[pos + 1]
}

/// Appends the big-endian encoding of `n` to `buffer`.
pub fn push_be16(buffer: &mut Vec<u8>, n: u16)
    ensures
        final(buffer)@ == old(buffer)@ + spec_be16(n as int),
{
    let b0: u8 = (n / 0x100) as u8;
    let b1: u8 = (n % 0x100) as u8;
    buffer.push(b0);
    buffer.push(b1);
    assert(buffer@ =~= old(buffer)@ + spec_be16(n as int));
}

/// Reads the big-endian value of the two bytes at `pos`.
pub fn read_be16(data: &Vec<u8>, pos: usize) -> (n: u16)
    requires
        pos + 2 <= data@.len(),
    ensures
        n as int == spec_read_u16(data@, pos as int),
{
    let len: usize = data.len();
    let b0: u16 = data[pos] as u16;
    let b1: u16 = data[pos + 1] as u16;
    b0 * 0x100 + b1
}

/// A value that writes itself onto the wire.
pub trait WriteToStream {
    /// The bytes this value contributes to the wire.
    spec fn wire_bytes(&self) -> Seq<u8>;

    /// Appends the value's wire form to `buffer`.
    fn serialize(&self, buffer: &mut Vec<u8>)
        ensures
            final(buffer)@ == old(buffer)@ + self.wire_bytes(),
    ;
}

impl WriteToStream for u8 {
    open spec fn wire_bytes(&self) -> Seq<u8> {
        seq![*self]
    }

    fn serialize(&self, buffer: &mut Vec<u8>) {
        buffer.push(*self);
        assert(buffer@ =~= old(buffer)@ + self.wire_bytes());
    }
}

impl WriteToStream for u16 {
    open spec fn wire_bytes(&self) -> Seq<u8> {
        spec_be16(*self as int)
    }

    fn serialize(&self, buffer: &mut Vec<u8>) {
        push_be16(buffer, *self);
    }
}

impl WriteToStream for u32 {
    open spec fn wire_bytes(&self) -> Seq<u8> {
        spec_be32(*self as int)
    }

    fn serialize(&self, buffer: &mut Vec<u8>) {
        push_be32(buffer, *self);
    }
}

/// A value read back off the wire.
pub trait ReadFromStream: Sized {
    /// What a read at `pos` yields: the value and the position one past it,
    /// or nothing when too few bytes remain.
    spec fn parse_spec(data: Seq<u8>, pos: int) -> Option<(Self, int)>;

    /// Reads one value starting at `pos`: exactly the parse the spec gives,
    /// and an error exactly when it gives none.
    fn deserialize(data: &Vec<u8>, pos: usize) -> (r: Result<(Self, usize), KvError>)
        requires
            pos <= data@.len(),
        ensures
            match r {
                Ok(p) => Self::parse_spec(data@, pos as int) == Some((p.0, p.1 as int)) && pos
                    < p.1 <= data@.len(),
                Err(e) => e == KvError::CorruptRecord && Self::parse_spec(
                    data@,
                    pos as int,
                ) is None,
            },
    ;
}

impl ReadFromStream for u8 {
    open spec fn parse_spec(data: Seq<u8>, pos: int) -> Option<(u8, int)> {
        if 0 <= pos < data.len() {
            Some((data[pos], pos + 1))
        } else {
            None
        }
    }

    fn deserialize(data: &Vec<u8>, pos: usize) -> (r: Result<(Self, usize), KvError>) {
        let len: usize = data.len();
        if pos < len {
            Ok((data[pos], pos + 1))
        } else {
            Err(KvError::CorruptRecord)
        }
    }
}

impl ReadFromStream for u16 {
    open spec fn parse_spec(data: Seq<u8>, pos: int) -> Option<(u16, int)> {
        if 0 <= pos && pos + 2 <= data.len() {
            Some((spec_read_u16(data, pos) as u16, pos + 2))
        } else {
            None
        }
    }

    fn deserialize(data: &Vec<u8>, pos: usize) -> (r: Result<(Self, usize), KvError>) {
        let len: usize = data.len();
        if len - pos >= 2 {
            Ok((read_be16(data, pos), pos + 2))
        } else {
            Err(KvError::CorruptRecord)
        }
    }
}

impl ReadFromStream for u32 {
    open spec fn parse_spec(data: Seq<u8>, pos: int) -> Option<(u32, int)> {
        if 0 <= pos && pos + 4 <= data.len() {
            Some((spec_read_u32(data, pos) as u32, pos + 4))
        } else {
            None
        }
    }

    fn deserialize(data: &Vec<u8>, pos: usize) -> (r: Result<(Self, usize), KvError>) {
        let len: usize = data.len();
        if len - pos >= 4 {
            Ok((read_be32(data, pos), pos + 4))
        } else {
            Err(KvError::CorruptRecord)
        }
    }
}

/// The wire form of a request header: the five fields in order, integers
/// big-endian.
pub open spec fn spec_header_bytes(h: RequestHeader) -> Seq<u8> {
    seq![h.version, h.keep_alive] + spec_be16(h.command_count as int) + spec_be32(
        h.body_size as int,
    ) + spec_be32(h.reserved as int)
}

/// The header encoded at `pos`, when twelve bytes are available.
pub open spec fn spec_read_header(data: Seq<u8>, pos: int) -> RequestHeader {
    RequestHeader {
        version: data[pos],
        keep_alive: data[pos + 1],
        command_count: spec_read_u16(data, pos + 2) as u16,
        body_size: spec_read_u32(data, pos + 4) as u32,
        reserved: spec_read_u32(data, pos + 8) as u32,
    }
}

/// Reads a request header from the twelve bytes at `pos`; fails exactly
/// when fewer than twelve bytes remain.
pub fn read_header(data: &Vec<u8>, pos: usize) -> (r: Result<(RequestHeader, usize), KvError>)
    requires
        pos <= data@.len(),
    ensures
        match r {
            Ok(p) => pos + 12 <= data@.len() && p.0 == spec_read_header(data@, pos as int)
                && p.1 == pos + 12,
            Err(e) => e == KvError::CorruptRecord && pos + 12 > data@.len(),
        },
{
    let len: usize = data.len();
    if len - pos < 12 {
        return Err(KvError::CorruptRecord);
    }
    let version: u8 = data[pos];
    let keep_alive: u8 = data[pos + 1];
    let command_count: u16 = read_be16(data, pos + 2);
    let body_size: u32 = read_be32(data, pos + 4);
    let reserved: u32 = read_be32(data, pos + 8);
    Ok((RequestHeader { version, keep_alive, command_count, body_size, reserved }, pos + 12))
}

/// Appends the wire form of a request header.
pub fn write_header(h: &RequestHeader, buffer: &mut Vec<u8>)
    ensures
        final(buffer)@ == old(buffer)@ + spec_header_bytes(*h),
{
    buffer.push(h.version);
    buffer.push(h.keep_alive);
    push_be16(buffer, h.command_count);
    push_be32(buffer, h.body_size);
    push_be32(buffer, h.reserved);
    assert(buffer@ =~= old(buffer)@ + spec_header_bytes(*h));
}

/// The concatenated wire form of a sequence of commands.
pub open spec fn spec_serialize_cmds(s: Seq<CommandV>) -> Seq<u8>
    decreases s.len(),
{
    if s.len() == 0 {
        Seq::empty()
    } else {
        spec_serialize_cmds(s.drop_last()) + spec_serialize(s.last())
    }
}

/// True when every command's string fields fit the wire format.
pub open spec fn cmds_fit(s: Seq<CommandV>) -> bool {
    forall|i: int| 0 <= i < s.len() ==> cmd_fits(#[trigger] s[i])
}

/// Serializes a whole request: a header carrying the command count and body
/// size, then the commands in order. Fails exactly when the command count
/// or the body size overflows its header field.
pub fn serialize_request(commands: &Vec<Command>, keep_alive: bool) -> (r: Result<
    Vec<u8>,
    KvError,
>)
    requires
        cmds_fit(commands@.map_values(|c: Command| c@)),
    ensures
        ({
            let views = commands@.map_values(|c: Command| c@);
            let body = spec_serialize_cmds(views);
            match r {
                Ok(bytes) => {
                    &&& commands@.len() <= u16::MAX
                    &&& body.len() <= u32::MAX
                    &&& bytes@ == spec_header_bytes(
                        RequestHeader {
                            version: PROTOCOL_VERSION,
                            keep_alive: if keep_alive {
                                1
                            } else {
                                0
                            },
                            command_count: commands@.len() as u16,
                            body_size: body.len() as u32,
                            reserved: 0,
                        },
                    ) + body
                },
                Err(e) => e == KvError::RecordTooLarge && (commands@.len() > u16::MAX
                    || body.len() > u32::MAX),
            }
        }),
{
    let ghost views = commands@.map_values(|c: Command| c@);
    let n: usize = commands.len();
    if n > u16::MAX as usize {
        proof {
            assert(views.len() == commands@.len());
        }
        return Err(KvError::RecordTooLarge);
    }
    let mut body: Vec<u8> = Vec::new();
    let mut i: usize = 0;
    proof {
        assert(body@ =~= spec_serialize_cmds(views.take(0)));
    }
    while i < n
        invariant
            0 <= i <= n,
            n == commands@.len(),
            n <= u16::MAX,
            views == commands@.map_values(|c: Command| c@),
            cmds_fit(views),
            body@ == spec_serialize_cmds(views.take(i as int)),
        decreases n - i,
    {
        proof {
            assert(views[i as int] == commands@[i as int]@);
            assert(cmd_fits(views[i as int]));
        }
        let mut rec: Vec<u8> = serialize(&commands[i]);
        body.append(&mut rec);
        proof {
            assert(views.take(i + 1).drop_last() =~= views.take(i as int));
            assert(views.take(i + 1).last() == views[i as int]);
            assert(body@ =~= spec_serialize_cmds(views.take(i + 1)));
        }
        i = i + 1;
    }
    proof {
        assert(views.take(n as int) =~= views);
    }
    let blen: usize = body.len();
    if blen as u64 > u32::MAX as u64 {
        return Err(KvError::RecordTooLarge);
    }
    let header = RequestHeader {
        version: PROTOCOL_VERSION,
        keep_alive: if keep_alive {
            1
        } else {
            0
        },
        command_count: n as u16,
        body_size: blen as u32,
        reserved: 0,
    };
    let mut out: Vec<u8> = Vec::new();
    write_header(&header, &mut out);
    out.append(&mut body);
    Ok(out)
}

/// The wire form of a response header: the five fields in order, integers
/// big-endian.
pub open spec fn spec_response_header_bytes(h: ResponseHeader) -> Seq<u8> {
    seq![h.version, h.reserved_1] + spec_be16(h.command_count as int) + spec_be32(
        h.body_size as int,
    ) + spec_be32(h.reserved_2 as int)
}

/// Appends the wire form of a response header; it mirrors the request
/// header's layout byte for byte.
pub fn write_response_header(h: &ResponseHeader, buffer: &mut Vec<u8>)
    ensures
        final(buffer)@ == old(buffer)@ + spec_response_header_bytes(*h),
{
    buffer.push(h.version);
    buffer.push(h.reserved_1);
    push_be16(buffer, h.command_count);
    push_be32(buffer, h.body_size);
    push_be32(buffer, h.reserved_2);
    assert(buffer@ =~= old(buffer)@ + spec_response_header_bytes(*h));
}

/// The wire form of one response result: its tag byte, and for `Get` a
/// presence byte followed, when a value is present, by the length-prefixed
/// value.
pub open spec fn spec_response_cmd_bytes(c: ResponseCommand) -> Seq<u8> {
    match c {
        ResponseCommand::Put => seq![115u8],
        ResponseCommand::Remove => seq![114u8],
        ResponseCommand::Reset => seq![122u8],
        ResponseCommand::Get { value } => match value {
            Some(v) => seq![103u8, 1u8] + spec_serialize_str(v@),
            None => seq![103u8, 0u8],
        },
    }
}

/// The concatenated wire form of a sequence of response results.
pub open spec fn spec_response_body(s: Seq<ResponseCommand>) -> Seq<u8>
    decreases s.len(),
{
    if s.len() == 0 {
        Seq::empty()
    } else {
        spec_response_body(s.drop_last()) + spec_response_cmd_bytes(s.last())
    }
}

/// True when every carried value fits behind its length prefix.
pub open spec fn responses_fit(s: Seq<ResponseCommand>) -> bool {
    forall|i: int|
        0 <= i < s.len() ==> match #[trigger] s[i] {
            ResponseCommand::Get { value } => match value {
                Some(v) => str_fits(v@),
                None => true,
            },
            _ => true,
        }
}

/// Serializes a whole response: a mirrored header, then one result per
/// command. Fails exactly when the result count or the body size overflows
/// its header field.
pub fn serialize_response(responses: &Vec<ResponseCommand>) -> (r: Result<Vec<u8>, KvError>)
    requires
        responses_fit(responses@),
    ensures
        ({
            let body = spec_response_body(responses@);
            match r {
                Ok(bytes) => {
                    &&& responses@.len() <= u16::MAX
                    &&& body.len() <= u32::MAX
                    &&& bytes@ == spec_response_header_bytes(
                        ResponseHeader {
                            version: PROTOCOL_VERSION,
                            reserved_1: 0,
                            command_count: responses@.len() as u16,
                            body_size: body.len() as u32,
                            reserved_2: 0,
                        },
                    ) + body
                },
                Err(e) => e == KvError::RecordTooLarge && (responses@.len() > u16::MAX
                    || body.len() > u32::MAX),
            }
        }),
{
    let n: usize = responses.len();
    if n > u16::MAX as usize {
        return Err(KvError::RecordTooLarge);
    }
    let mut body: Vec<u8> = Vec::new();
    let mut i: usize = 0;
    proof {
        assert(body@ =~= spec_response_body(responses@.take(0)));
    }
    while i < n
        invariant
            0 <= i <= n,
            n == responses@.len(),
            n <= u16::MAX,
            responses_fit(responses@),
            body@ == spec_response_body(responses@.take(i as int)),
        decreases n - i,
    {
        let ghost body0 = body@;
        match &responses[i] {
            ResponseCommand::Put => {
                body.push(115);
            },
            ResponseCommand::Remove => {
                body.push(114);
            },
            ResponseCommand::Reset => {
                body.push(122);
            },
            ResponseCommand::Get { value } => {
                body.push(103);
                match value {
                    Some(v) => {
                        body.push(1);
                        serialize_str(v, &mut body);
                    },
                    None => {
                        body.push(0);
                    },
                }
            },
        }
        proof {
            assert(responses@.take(i + 1).drop_last() =~= responses@.take(i as int));
            assert(responses@.take(i + 1).last() == responses@[i as int]);
            assert(body@ =~= body0 + spec_response_cmd_bytes(responses@[i as int]));
            assert(body@ =~= spec_response_body(responses@.take(i + 1)));
        }
        i = i + 1;
    }
    proof {
        assert(responses@.take(n as int) =~= responses@);
    }
    let blen: usize = body.len();
    if blen as u64 > u32::MAX as u64 {
        return Err(KvError::RecordTooLarge);
    }
    let header = ResponseHeader {
        version: PROTOCOL_VERSION,
        reserved_1: 0,
        command_count: n as u16,
        body_size: blen as u32,
        reserved_2: 0,
    };
    let mut out: Vec<u8> = Vec::new();
    write_response_header(&header, &mut out);
    out.append(&mut body);
    Ok(out)
}

/// The response header encoded at `pos`, when twelve bytes are available.
pub open spec fn spec_read_response_header(data: Seq<u8>, pos: int) -> ResponseHeader {
    ResponseHeader {
        version: data[pos],
        reserved_1: data[pos + 1],
        command_count: spec_read_u16(data, pos + 2) as u16,
        body_size: spec_read_u32(data, pos + 4) as u32,
        reserved_2: spec_read_u32(data, pos + 8) as u32,
    }
}

/// Reads `n` response results from `pos`, ending exactly at the end of the
/// data: each result is a tag byte, and for `Get` a presence byte followed,
/// when a value is present, by the length-prefixed value.
pub open spec fn spec_parse_responses(data: Seq<u8>, pos: int, n: int) -> Option<Seq<
    crate::protocol::ResponseCommandV,
>>
    decreases n,
{
    if n <= 0 {
        if pos == data.len() {
            Some(Seq::empty())
        } else {
            None
        }
    } else if !(0 <= pos < data.len()) {
        None
    } else {
        let tag = data[pos];
        if tag == 115u8 {
            match spec_parse_responses(data, pos + 1, n - 1) {
                Some(rest) => Some(seq![ResponseCommandV::Put] + rest),
                None => None,
            }
        } else if tag == 114u8 {
            match spec_parse_responses(data, pos + 1, n - 1) {
                Some(rest) => Some(seq![ResponseCommandV::Remove] + rest),
                None => None,
            }
        } else if tag == 122u8 {
            match spec_parse_responses(data, pos + 1, n - 1) {
                Some(rest) => Some(seq![ResponseCommandV::Reset] + rest),
                None => None,
            }
        } else if tag == 103u8 {
            if pos + 2 <= data.len() && data[pos + 1] == 0u8 {
                match spec_parse_responses(data, pos + 2, n - 1) {
                    Some(rest) => Some(seq![ResponseCommandV::Get { value: None }] + rest),
                    None => None,
                }
            } else if pos + 2 <= data.len() {
                match crate::codec::spec_deserialize_str(data, pos + 2) {
                    Some(p) => match spec_parse_responses(data, p.1, n - 1) {
                        Some(rest) => Some(
                            seq![ResponseCommandV::Get { value: Some(p.0) }] + rest,
                        ),
                        None => None,
                    },
                    None => None,
                }
            } else {
                None
            }
        } else {
            None
        }
    }
}

/// The mathematical shape of one response: a found value as its characters.
pub enum ResponseCommandV {
    Put,
    Get { value: Option<Seq<char>> },
    Remove,
    Reset,
}

impl View for ResponseCommand {
    type V = ResponseCommandV;

    open spec fn view(&self) -> ResponseCommandV {
        match self {
            ResponseCommand::Put => ResponseCommandV::Put,
            ResponseCommand::Get { value } => ResponseCommandV::Get {
                value: match value {
                    Some(v) => Some(v@),
                    None => None,
                },
            },
            ResponseCommand::Remove => ResponseCommandV::Remove,
            ResponseCommand::Reset => ResponseCommandV::Reset,
        }
    }
}

/// Runs a sequence of commands over store contents: the final contents and
/// the response each command yields against the state it meets.
pub open spec fn spec_run(m: Map<Seq<char>, Seq<char>>, cmds: Seq<CommandV>) -> (Map<
    Seq<char>,
    Seq<char>,
>, Seq<ResponseCommandV>)
    decreases cmds.len(),
{
    if cmds.len() == 0 {
        (m, Seq::empty())
    } else {
        let (m1, r1) = spec_step(m, cmds[0]);
        let rest = spec_run(m1, cmds.drop_first());
        (rest.0, seq![r1] + rest.1)
    }
}

/// One command's effect on the contents, and its response.
pub open spec fn spec_step(m: Map<Seq<char>, Seq<char>>, c: CommandV) -> (Map<
    Seq<char>,
    Seq<char>,
>, ResponseCommandV) {
    match c {
        CommandV::Put { key, value } => (m.insert(key, value), ResponseCommandV::Put),
        CommandV::Get { key } => (
            m,
            ResponseCommandV::Get {
                value: if m.dom().contains(key) {
                    Some(m[key])
                } else {
                    None
                },
            },
        ),
        CommandV::Remove { key } => (m.remove(key), ResponseCommandV::Remove),
        CommandV::Reset => (Map::empty(), ResponseCommandV::Reset),
    }
}

/// Parses a whole response: a twelve-byte header whose body size must match
/// the data, then one result per counted command, consuming every byte.
/// The exact inverse of `serialize_response`.
pub fn read_response(data: &Vec<u8>) -> (r: Result<Response, KvError>)
    ensures
        match r {
            Ok(resp) => {
                &&& data@.len() >= 12
                &&& resp.header == spec_read_response_header(data@, 0)
                &&& data@.len() == 12 + resp.header.body_size
                &&& spec_parse_responses(data@, 12, resp.header.command_count as int) == Some(
                    resp.commands@.map_values(|c: ResponseCommand| c@),
                )
            },
            Err(e) => {
                &&& e == KvError::CorruptRecord
                &&& (data@.len() < 12 || data@.len() != 12 + spec_read_response_header(
                    data@,
                    0,
                ).body_size || spec_parse_responses(
                    data@,
                    12,
                    spec_read_response_header(data@, 0).command_count as int,
                ) is None)
            },
        },
{
    let len: usize = data.len();
    if len < 12 {
        return Err(KvError::CorruptRecord);
    }
    let version: u8 = data[0];
    let reserved_1: u8 = data[1];
    let command_count: u16 = read_be16(data, 2);
    let body_size: u32 = read_be32(data, 4);
    let reserved_2: u32 = read_be32(data, 8);
    let header = ResponseHeader { version, reserved_1, command_count, body_size, reserved_2 };
    if len as u64 != 12 + body_size as u64 {
        return Err(KvError::CorruptRecord);
    }
    let count: usize = command_count as usize;
    let mut commands: Vec<ResponseCommand> = Vec::new();
    let mut pos: usize = 12;
    let mut i: usize = 0;
    proof {
        assert(commands@.map_values(|c: ResponseCommand| c@) =~= Seq::<
            ResponseCommandV,
        >::empty());
    }
    while i < count
        invariant
            0 <= i <= count,
            12 <= pos <= len,
            len == data@.len(),
            commands@.len() == i,
            header == spec_read_response_header(data@, 0),
            count == header.command_count,
            match spec_parse_responses(data@, pos as int, count - i) {
                Some(rest) => spec_parse_responses(data@, 12, count as int) == Some(
                    commands@.map_values(|c: ResponseCommand| c@) + rest,
                ),
                None => spec_parse_responses(data@, 12, count as int) is None,
            },
        decreases count - i,
    {
        let ghost pos0 = pos as int;
        let ghost cmds0 = commands@;
        if pos >= len {
            return Err(KvError::CorruptRecord);
        }
        let tag: u8 = data[pos];
        if tag == 115 {
            commands.push(ResponseCommand::Put);
            pos = pos + 1;
        } else if tag == 114 {
            commands.push(ResponseCommand::Remove);
            pos = pos + 1;
        } else if tag == 122 {
            commands.push(ResponseCommand::Reset);
            pos = pos + 1;
        } else if tag == 103 {
            if len - pos < 2 {
                return Err(KvError::CorruptRecord);
            }
            let present: u8 = data[pos + 1];
            if present == 0 {
                commands.push(ResponseCommand::Get { value: None });
                pos = pos + 2;
            } else {
                match deserialize_str(data, pos + 2) {
                    Ok(p) => {
                        commands.push(ResponseCommand::Get { value: Some(p.0) });
                        pos = p.1;
                    },
                    Err(e) => {
                        return Err(KvError::CorruptRecord);
                    },
                }
            }
        } else {
            return Err(KvError::CorruptRecord);
        }
        proof {
            let v = commands@.last()@;
            match spec_parse_responses(data@, pos as int, count - (i + 1)) {
                Some(rest) => {
                    assert(spec_parse_responses(data@, pos0, count - i) == Some(
                        seq![v] + rest,
                    ));
                    assert(commands@.map_values(|c: ResponseCommand| c@) =~= cmds0.map_values(
                        |c: ResponseCommand| c@,
                    ).push(v));
                    assert(cmds0.map_values(|c: ResponseCommand| c@).push(v) + rest
                        =~= cmds0.map_values(|c: ResponseCommand| c@) + (seq![v] + rest));
                },
                None => {
                    assert(spec_parse_responses(data@, pos0, count - i) is None);
                },
            }
        }
        i = i + 1;
    }
    if pos != len {
        return Err(KvError::CorruptRecord);
    }
    proof {
        assert(spec_parse_responses(data@, pos as int, 0) == Some(
            Seq::<ResponseCommandV>::empty(),
        ));
        assert(commands@.map_values(|c: ResponseCommand| c@) + Seq::<ResponseCommandV>::empty()
            =~= commands@.map_values(|c: ResponseCommand| c@));
    }
    Ok(Response { header, commands })
}

/// Dispatch failed at command `p`: exactly the commands before `p` were
/// applied, and the error names its cause — an oversize `Put` record at
/// `p`, or a saturated active-segment counter.
pub open spec fn run_failed_at(
    m0: Map<Seq<char>, Seq<char>>,
    views: Seq<CommandV>,
    p: int,
    e: KvError,
    m_fin: Map<Seq<char>, Seq<char>>,
    active_fin: int,
) -> bool {
    &&& 0 <= p < views.len()
    &&& m_fin == spec_run(m0, views.take(p)).0
    &&& (e == KvError::RecordTooLarge ==> views[p] is Put && spec_record_len(views[p])
        > MAX_SEGMENT_SIZE)
    &&& (e == KvError::Io ==> active_fin == usize::MAX as int)
}

/// Applies a request's commands to the store in order, collecting one
/// response per command. Succeeds unless a command genuinely fails: an
/// error is an oversize record or a saturated segment counter at some
/// command, with exactly the commands before it applied.
pub fn handle_request(storage: &mut crate::kv_log::KvStore, commands: Vec<Command>) -> (r: Result<
    Vec<ResponseCommand>,
    KvError,
>)
    requires
        old(storage).wf(),
    ensures
        final(storage).wf(),
        ({
            let views = commands@.map_values(|c: Command| c@);
            let run = spec_run(old(storage).contents(), views);
            match r {
                Ok(resps) => final(storage).contents() == run.0 && resps@.map_values(
                    |c: ResponseCommand| c@,
                ) == run.1,
                Err(e) => (e == KvError::RecordTooLarge || e == KvError::Io) && exists|p: int|
                    #[trigger] run_failed_at(
                        old(storage).contents(),
                        views,
                        p,
                        e,
                        final(storage).contents(),
                        final(storage).active_idx(),
                    ),
            }
        }),
{
    let ghost views = commands@.map_values(|c: Command| c@);
    let ghost m0 = storage.contents();
    let mut responses: Vec<ResponseCommand> = Vec::new();
    let n: usize = commands.len();
    let mut i: usize = 0;
    proof {
        assert(views.take(0) =~= Seq::<CommandV>::empty());
    }
    while i < n
        invariant
            0 <= i <= n,
            n == commands@.len(),
            views == commands@.map_values(|c: Command| c@),
            storage.wf(),
            m0 == old(storage).contents(),
            responses@.len() == i,
            spec_run(m0, views.take(i as int)).0 == storage.contents(),
            spec_run(m0, views.take(i as int)).1 == responses@.map_values(
                |c: ResponseCommand| c@,
            ),
        decreases n - i,
    {
        let ghost resps0 = responses@;
        let command = &commands[i];
        proof {
            assert(command@ == views[i as int]);
        }
        let response: ResponseCommand = match command {
            Command::Get { key } => {
                match storage.get(key.clone()) {
                    Ok(value) => ResponseCommand::Get { value },
                    Err(e) => {
                        proof {
                            assert(false);
                        }
                        return Err(e);
                    },
                }
            },
            Command::Put { key, value } => {
                match storage.set(key.clone(), value.clone()) {
                    Ok(u) => ResponseCommand::Put,
                    Err(e) => {
                        proof {
                            assert(storage.contents() == spec_run(m0, views.take(i as int)).0);
                            assert(views[i as int] == command@);
                            assert(run_failed_at(
                                m0,
                                views,
                                i as int,
                                e,
                                storage.contents(),
                                storage.active_idx(),
                            ));
                        }
                        return Err(e);
                    },
                }
            },
            Command::Remove { key } => {
                match storage.remove(key.clone()) {
                    Ok(existed) => ResponseCommand::Remove,
                    Err(e) => {
                        proof {
                            assert(storage.contents() == spec_run(m0, views.take(i as int)).0);
                            assert(run_failed_at(
                                m0,
                                views,
                                i as int,
                                e,
                                storage.contents(),
                                storage.active_idx(),
                            ));
                        }
                        return Err(e);
                    },
                }
            },
            Command::Reset => {
                match storage.reset() {
                    Ok(u) => ResponseCommand::Reset,
                    Err(e) => {
                        proof {
                            assert(false);
                        }
                        return Err(e);
                    },
                }
            },
        };
        let ghost rv = response@;
        responses.push(response);
        proof {
            lemma_spec_run_snoc(m0, views, i as int);
            assert(responses@.map_values(|c: ResponseCommand| c@) =~= resps0.map_values(
                |c: ResponseCommand| c@,
            ).push(rv));
        }
        i = i + 1;
    }
    proof {
        assert(views.take(n as int) =~= views);
    }
    Ok(responses)
}

/// Running one more command runs the prefix and then applies that command.
proof fn lemma_spec_run_snoc(m: Map<Seq<char>, Seq<char>>, cmds: Seq<CommandV>, i: int)
    requires
        0 <= i < cmds.len(),
    ensures
        spec_run(m, cmds.take(i + 1)).0 == spec_step(spec_run(m, cmds.take(i)).0, cmds[i]).0,
        spec_run(m, cmds.take(i + 1)).1 == spec_run(m, cmds.take(i)).1.push(
            spec_step(spec_run(m, cmds.take(i)).0, cmds[i]).1,
        ),
    decreases i,
{
    reveal_with_fuel(spec_run, 3);
    if i == 0 {
        let one = cmds.take(1);
        assert(one[0] == cmds[0]);
        assert(one.drop_first() =~= Seq::<CommandV>::empty());
        assert(cmds.take(0) =~= Seq::<CommandV>::empty());
        let step = spec_step(m, cmds[0]);
        assert(spec_run(m, one).0 == step.0);
        assert(spec_run(m, one).1 =~= spec_run(m, cmds.take(0)).1.push(step.1));
    } else {
        let step0 = spec_step(m, cmds[0]);
        assert(cmds.take(i + 1)[0] == cmds[0]);
        assert(cmds.take(i)[0] == cmds[0]);
        assert(cmds.take(i + 1).drop_first() =~= cmds.drop_first().take(i));
        assert(cmds.take(i).drop_first() =~= cmds.drop_first().take(i - 1));
        assert(cmds.drop_first()[i - 1] == cmds[i]);
        lemma_spec_run_snoc(step0.0, cmds.drop_first(), i - 1);
        let pre_rest = spec_run(step0.0, cmds.drop_first().take(i - 1));
        let step = spec_step(pre_rest.0, cmds[i]);
        assert(spec_run(m, cmds.take(i)).0 == pre_rest.0);
        assert(spec_run(m, cmds.take(i + 1)).0 == spec_run(
            step0.0,
            cmds.drop_first().take(i),
        ).0);
        assert(spec_run(m, cmds.take(i + 1)).1 =~= spec_run(m, cmds.take(i)).1.push(step.1));
    }
}

/// A trait for the key-value engines a server can drive: the log-structured
/// store and any alternative backend implement this interface.
pub trait KVStorage {
    /// Sets `key` to `value`.
    fn set(&mut self, key: String, value: String) -> Result<(), KvError>;

    /// Removes `key`, reporting whether it existed.
    fn remove(&mut self, key: String) -> Result<bool, KvError>;

    /// The value stored at `key`, if any.
    fn get(&self, key: String) -> Result<Option<String>, KvError>;

    /// Removes every record.
    fn reset(&mut self) -> Result<(), KvError>;
}

} // verus!
