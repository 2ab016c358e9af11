//! The record codec: the exact on-disk and wire form of each command,
//! with serializers and parsers proved inverse to each other.

use vstd::prelude::*;
use vstd::string::*;
use vstd::utf8::{valid_utf8, decode_utf8, encode_utf8};
use crate::errors::KvError;

verus! {

/// Tag byte of a Set record: the letter `s`.
pub const TAG_SET: u8 = 115;

/// Tag byte of a Remove record: the letter `r`.
pub const TAG_REMOVE: u8 = 114;

/// Tag byte of a wire-only Get command: the letter `g`.
pub const TAG_GET: u8 = 103;

/// Tag byte of a wire-only Reset command: the letter `z`.
pub const TAG_RESET: u8 = 122;

/// A storage or wire command. `Put` (the Set record, tag `s`) and `Remove`
/// (tag `r`) are the two record kinds that reach segment files; `Get` and
/// `Reset` exist only on the wire and are never written to a segment.
#[derive(Clone, Debug)]
pub enum Command {
    Put { key: String, value: String },
    Get { key: String },
    Remove { key: String },
    Reset,
}

/// The mathematical shape of a command: each string field as its characters.
pub enum CommandV {
    Put { key: Seq<char>, value: Seq<char> },
    Get { key: Seq<char> },
    Remove { key: Seq<char> },
    Reset,
}

impl View for Command {
    type V = CommandV;

    open spec fn view(&self) -> CommandV {
        match self {
            Command::Put { key, value } => CommandV::Put { key: key@, value: value@ },
            Command::Get { key } => CommandV::Get { key: key@ },
            Command::Remove { key } => CommandV::Remove { key: key@ },
            Command::Reset => CommandV::Reset,
        }
    }
}

/// Big-endian encoding of the low 32 bits of `n`, most significant byte first.
pub open spec fn spec_be32(n: int) -> Seq<u8> {
    seq![
        (((n / 0x1000000) % 0x100) as u8),
        (((n / 0x10000) % 0x100) as u8),
        (((n / 0x100) % 0x100) as u8),
        ((n % 0x100) as u8),
    ]
}

/// The value of the four bytes `data[pos .. pos + 4]` read as a big-endian integer.
pub open spec fn spec_read_u32(data: Seq<u8>, pos: int) -> int {
    data[pos] * 0x1000000 + data[pos + 1] * 0x10000 + data[pos + 2] * 0x100 + data[pos + 3]
}

/// Reading back the four bytes written for `n` yields `n` again.
pub proof fn lemma_be32_read(data: Seq<u8>, pos: int, n: int)
    requires
        0 <= n < 0x100000000,
        0 <= pos,
        pos + 4 <= data.len(),
        data.subrange(pos, pos + 4) == spec_be32(n),
    ensures
        spec_read_u32(data, pos) == n,
{
    assert(data[pos] == ((n / 0x1000000) % 0x100) as u8);
    assert(data[pos + 1] == ((n / 0x10000) % 0x100) as u8);
    assert(data[pos + 2] == ((n / 0x100) % 0x100) as u8);
    assert(data[pos + 3] == (n % 0x100) as u8);
    assert(((n / 0x1000000) % 0x100) * 0x1000000 + ((n / 0x10000) % 0x100) * 0x10000 + ((n
        / 0x100) % 0x100) * 0x100 + n % 0x100 == n) by (nonlinear_arith)
        requires
            0 <= n < 0x100000000,
    ;
}

/// Appends the big-endian encoding of `n` to `buffer`.
pub fn push_be32(buffer: &mut Vec<u8>, n: u32)
    ensures
        final(buffer)@ == old(buffer)@ + spec_be32(n as int),
{
    let b0: u8 = (n / 0x1000000) as u8;
    let b1: u8 = ((n / 0x10000) % 0x100) as u8;
    let b2: u8 = ((n / 0x100) % 0x100) as u8;
    let b3: u8 = (n % 0x100) as u8;
    proof {
        assert(n / 0x1000000 < 0x100) by (nonlinear_arith);
        assert((n as int) / 0x1000000 == ((n as int) / 0x1000000) % 0x100);
    }
    buffer.push(b0);
    buffer.push(b1);
    buffer.push(b2);
    buffer.push(b3);
    assert(buffer@ =~= old(buffer)@ + spec_be32(n as int));
}

/// Reads the big-endian value of the four bytes at `pos`.
pub fn read_be32(data: &Vec<u8>, pos: usize) -> (n: u32)
    requires
        pos + 4 <= data@.len(),
    ensures
        n as int == spec_read_u32(data@, pos as int),
{
    let len: usize = data.len();
    let b0: u32 = data[pos] as u32;
    let b1: u32 = data[pos + 1] as u32;
    let b2: u32 = data[pos + 2] as u32;
    let b3: u32 = data[pos + 3] as u32;
    b0 * 0x1000000 + b1 * 0x10000 + b2 * 0x100 + b3
}

/// Relies on String::from_utf8: it succeeds exactly on valid UTF-8 input and
/// decodes the bytes to the characters they encode, as modelled by vstd's
/// `decode_utf8`.
#[verifier::external_body]
fn bytes_to_string(bytes: Vec<u8>) -> (r: Option<String>)
    ensures
        r is Some <==> valid_utf8(bytes@),
        r matches Some(s) ==> s@ == decode_utf8(bytes@),
{
    String::from_utf8(bytes).ok()
}

/// The number of bytes in the UTF-8 encoding of `s`.
pub open spec fn str_byte_len(s: Seq<char>) -> int {
    encode_utf8(s).len() as int
}

/// True when the UTF-8 encoding of `s` fits behind a 32-bit length prefix.
pub open spec fn str_fits(s: Seq<char>) -> bool {
    str_byte_len(s) < 0x100000000
}

/// The on-disk form of a string: a 32-bit big-endian byte length followed by
/// the UTF-8 bytes themselves.
pub open spec fn spec_serialize_str(s: Seq<char>) -> Seq<u8> {
    spec_be32(str_byte_len(s)) + encode_utf8(s)
}

/// Reads one length-prefixed string starting at `pos`: `None` when the
/// prefix or the bytes run past the end of `data`, or when the bytes are not
/// valid UTF-8; otherwise the characters and the position one past the string.
pub open spec fn spec_deserialize_str(data: Seq<u8>, pos: int) -> Option<(Seq<char>, int)> {
    if pos + 4 <= data.len() {
        let n = spec_read_u32(data, pos);
        if pos + 4 + n <= data.len() && valid_utf8(data.subrange(pos + 4, pos + 4 + n)) {
            Some((decode_utf8(data.subrange(pos + 4, pos + 4 + n)), pos + 4 + n))
        } else {
            None
        }
    } else {
        None
    }
}

/// Appends the length-prefixed UTF-8 form of `s` to `buffer`.
pub fn serialize_str(s: &String, buffer: &mut Vec<u8>)
    requires
        str_fits(s@),
    ensures
        final(buffer)@ == old(buffer)@ + spec_serialize_str(s@),
{
    let mut bytes: Vec<u8> = s.as_str().as_bytes_vec();
    let len: u32 = bytes.len() as u32;
    push_be32(buffer, len);
    buffer.append(&mut bytes);
}

/// Reads one length-prefixed string from `data` starting at `pos`.
pub fn deserialize_str(data: &Vec<u8>, pos: usize) -> (r: Result<(String, usize), KvError>)
    requires
        pos <= data@.len(),
    ensures
        match r {
            Ok(p) => spec_deserialize_str(data@, pos as int) == Some((p.0@, p.1 as int)),
            Err(e) => e == KvError::CorruptRecord && spec_deserialize_str(
                data@,
                pos as int,
            ) is None,
        },
{
    let len: usize = data.len();
    if len - pos < 4 {
        return Err(KvError::CorruptRecord);
    }
    let n32: u32 = read_be32(data, pos);
    let n: usize = n32 as usize;
    if n > len - (pos + 4) {
        return Err(KvError::CorruptRecord);
    }
    let start: usize = pos + 4;
    let mut bytes: Vec<u8> = Vec::new();
    let mut i: usize = 0;
    while i < n
        invariant
            start + n <= data@.len(),
            data@.len() <= usize::MAX,
            i <= n,
            bytes@ == data@.subrange(start as int, start + i),
        decreases n - i,
    {
        bytes.push(data[start + i]);
        i = i + 1;
        assert(bytes@ =~= data@.subrange(start as int, start + i));
    }
    match bytes_to_string(bytes) {
        Some(s) => Ok((s, start + n)),
        None => Err(KvError::CorruptRecord),
    }
}

/// True when every string field of `c` fits behind a 32-bit length prefix.
pub open spec fn cmd_fits(c: CommandV) -> bool {
    match c {
        CommandV::Put { key, value } => str_fits(key) && str_fits(value),
        CommandV::Get { key } => str_fits(key),
        CommandV::Remove { key } => str_fits(key),
        CommandV::Reset => true,
    }
}

/// The exact serialized form of a command: a tag byte followed by the
/// length-prefixed string fields in order.
pub open spec fn spec_serialize(c: CommandV) -> Seq<u8> {
    match c {
        CommandV::Put { key, value } => seq![TAG_SET] + spec_serialize_str(key)
            + spec_serialize_str(value),
        CommandV::Get { key } => seq![TAG_GET] + spec_serialize_str(key),
        CommandV::Remove { key } => seq![TAG_REMOVE] + spec_serialize_str(key),
        CommandV::Reset => seq![TAG_RESET],
    }
}

/// Reads one command starting at `pos < data.len()`: the tag byte selects the
/// variant and the string fields follow; `None` on an unknown tag or a
/// malformed string.
pub open spec fn spec_deserialize(data: Seq<u8>, pos: int) -> Option<(CommandV, int)> {
    if 0 <= pos < data.len() {
        let tag = data[pos];
        if tag == TAG_SET {
            match spec_deserialize_str(data, pos + 1) {
                Some((key, p2)) => match spec_deserialize_str(data, p2) {
                    Some((value, p3)) => Some((CommandV::Put { key, value }, p3)),
                    None => None,
                },
                None => None,
            }
        } else if tag == TAG_REMOVE {
            match spec_deserialize_str(data, pos + 1) {
                Some((key, p2)) => Some((CommandV::Remove { key }, p2)),
                None => None,
            }
        } else if tag == TAG_GET {
            match spec_deserialize_str(data, pos + 1) {
                Some((key, p2)) => Some((CommandV::Get { key }, p2)),
                None => None,
            }
        } else if tag == TAG_RESET {
            Some((CommandV::Reset, pos + 1))
        } else {
            None
        }
    } else {
        None
    }
}

/// Serializes a command to its exact on-disk or wire form.
pub fn serialize(command: &Command) -> (r: Vec<u8>)
    requires
        cmd_fits(command@),
    ensures
        r@ == spec_serialize(command@),
{
    let mut buffer: Vec<u8> = Vec::new();
    match command {
        Command::Put { key, value } => {
            buffer.push(TAG_SET);
            serialize_str(key, &mut buffer);
            serialize_str(value, &mut buffer);
        },
        Command::Get { key } => {
            buffer.push(TAG_GET);
            serialize_str(key, &mut buffer);
        },
        Command::Remove { key } => {
            buffer.push(TAG_REMOVE);
            serialize_str(key, &mut buffer);
        },
        Command::Reset => {
            buffer.push(TAG_RESET);
        },
    }
    proof {
        assert(buffer@ =~= spec_serialize(command@));
    }
    buffer
}

/// Byte offset from the start of a serialized `Put` record to its value's
/// length prefix: the tag byte, the four key-length bytes and the key bytes.
pub open spec fn spec_value_offset(c: CommandV) -> Option<int> {
    match c {
        CommandV::Put { key, value } => Some(1 + 4 + str_byte_len(key)),
        _ => None,
    }
}

/// For a `Put` command, the offset inside its serialized form at which the
/// value's length prefix begins; `None` for every other command.
pub fn get_value_offset(command: &Command) -> (r: Option<u64>)
    requires
        cmd_fits(command@),
    ensures
        match r {
            Some(off) => spec_value_offset(command@) == Some(off as int),
            None => spec_value_offset(command@) is None,
        },
{
    match command {
        Command::Put { key, value: _ } => {
            let klen: usize = key.as_str().len();
            Some(1 + 4 + klen as u64)
        },
        _ => None,
    }
}

/// Reads one command from `data` at `pos`; `Ok(None)` exactly at the end of
/// the data, an error exactly where no well-formed command starts at `pos`.
pub fn deserialize(data: &Vec<u8>, pos: usize) -> (r: Result<Option<(Command, usize)>, KvError>)
    requires
        pos <= data@.len(),
    ensures
        match r {
            Ok(None) => pos == data@.len(),
            Ok(Some(p)) => {
                &&& spec_deserialize(data@, pos as int) == Some((p.0@, p.1 as int))
                &&& pos < p.1 <= data@.len()
            },
            Err(e) => {
                &&& e == KvError::CorruptRecord
                &&& pos < data@.len()
                &&& spec_deserialize(data@, pos as int) is None
            },
        },
{
    let len: usize = data.len();
    if pos == len {
        return Ok(None);
    }
    let tag: u8 = data[pos];
    if tag == TAG_SET {
        match deserialize_str(data, pos + 1) {
            Ok((key, p2)) => match deserialize_str(data, p2) {
                Ok((value, p3)) => Ok(Some((Command::Put { key, value }, p3))),
                Err(e) => Err(e),
            },
            Err(e) => Err(e),
        }
    } else if tag == TAG_REMOVE {
        match deserialize_str(data, pos + 1) {
            Ok((key, p2)) => Ok(Some((Command::Remove { key }, p2))),
            Err(e) => Err(e),
        }
    } else if tag == TAG_GET {
        match deserialize_str(data, pos + 1) {
            Ok((key, p2)) => Ok(Some((Command::Get { key }, p2))),
            Err(e) => Err(e),
        }
    } else if tag == TAG_RESET {
        Ok(Some((Command::Reset, pos + 1)))
    } else {
        Err(KvError::CorruptRecord)
    }
}

/// The serialized length of a command, by variant.
pub open spec fn spec_record_len(c: CommandV) -> int {
    match c {
        CommandV::Put { key, value } => 1 + 4 + str_byte_len(key) + 4 + str_byte_len(value),
        CommandV::Get { key } => 1 + 4 + str_byte_len(key),
        CommandV::Remove { key } => 1 + 4 + str_byte_len(key),
        CommandV::Reset => 1,
    }
}

/// The serialized form of a command is exactly `spec_record_len` bytes long.
pub proof fn lemma_serialize_len(c: CommandV)
    ensures
        spec_serialize(c).len() == spec_record_len(c),
{
}

/// What a successful string parse guarantees: the end position, the byte
/// length of the parsed characters, and the bytes they re-encode to.
pub proof fn lemma_parse_str_props(data: Seq<u8>, pos: int)
    requires
        0 <= pos,
        spec_deserialize_str(data, pos) is Some,
    ensures
        ({
            let p = spec_deserialize_str(data, pos).unwrap();
            &&& pos + 4 <= p.1 <= data.len()
            &&& str_byte_len(p.0) == p.1 - pos - 4
            &&& str_fits(p.0)
            &&& encode_utf8(p.0) == data.subrange(pos + 4, p.1)
        }),
{
    let n = spec_read_u32(data, pos);
    assert(0 <= n < 0x100000000);
    vstd::utf8::decode_utf8_encode_utf8(data.subrange(pos + 4, pos + 4 + n));
}

/// What a successful command parse guarantees: progress, fitting string
/// fields, and for `Put` the exact positions at which the key and the value
/// parse.
pub proof fn lemma_parse_cmd_props(data: Seq<u8>, pos: int)
    requires
        0 <= pos,
        spec_deserialize(data, pos) is Some,
    ensures
        ({
            let p = spec_deserialize(data, pos).unwrap();
            &&& pos < p.1 <= data.len()
            &&& cmd_fits(p.0)
            &&& match p.0 {
                CommandV::Put { key, value } => {
                    let voff = pos + 1 + 4 + str_byte_len(key);
                    &&& spec_deserialize_str(data, pos + 1) == Some((key, voff))
                    &&& spec_deserialize_str(data, voff) == Some((value, p.1))
                    &&& p.1 == voff + 4 + str_byte_len(value)
                },
                CommandV::Remove { key } => p.1 == pos + 1 + 4 + str_byte_len(key),
                CommandV::Get { key } => p.1 == pos + 1 + 4 + str_byte_len(key),
                CommandV::Reset => p.1 == pos + 1,
            }
        }),
{
    let tag = data[pos];
    if tag == TAG_SET {
        lemma_parse_str_props(data, pos + 1);
        let q = spec_deserialize_str(data, pos + 1).unwrap();
        lemma_parse_str_props(data, q.1);
    } else if tag == TAG_REMOVE || tag == TAG_GET {
        lemma_parse_str_props(data, pos + 1);
    }
}

/// The four bytes a big-endian value was read from are the value's encoding.
pub proof fn lemma_be32_canonical(data: Seq<u8>, pos: int)
    requires
        0 <= pos,
        pos + 4 <= data.len(),
    ensures
        spec_be32(spec_read_u32(data, pos)) == data.subrange(pos, pos + 4),
{
    let n = spec_read_u32(data, pos);
    let b0 = data[pos] as int;
    let b1 = data[pos + 1] as int;
    let b2 = data[pos + 2] as int;
    let b3 = data[pos + 3] as int;
    assert((b0 * 0x1000000 + b1 * 0x10000 + b2 * 0x100 + b3) / 0x1000000 % 0x100 == b0
        && (b0 * 0x1000000 + b1 * 0x10000 + b2 * 0x100 + b3) / 0x10000 % 0x100 == b1 && (b0
        * 0x1000000 + b1 * 0x10000 + b2 * 0x100 + b3) / 0x100 % 0x100 == b2 && (b0 * 0x1000000
        + b1 * 0x10000 + b2 * 0x100 + b3) % 0x100 == b3) by (nonlinear_arith)
        requires
            0 <= b0 < 0x100 && 0 <= b1 < 0x100 && 0 <= b2 < 0x100 && 0 <= b3 < 0x100,
    ;
    assert(spec_be32(n) =~= data.subrange(pos, pos + 4));
}

/// A parsed string's on-disk bytes are exactly what serializing it writes.
pub proof fn lemma_parse_str_then_serialize(data: Seq<u8>, pos: int)
    requires
        0 <= pos,
        spec_deserialize_str(data, pos) is Some,
    ensures
        ({
            let p = spec_deserialize_str(data, pos).unwrap();
            spec_serialize_str(p.0) == data.subrange(pos, p.1)
        }),
{
    lemma_parse_str_props(data, pos);
    lemma_be32_canonical(data, pos);
    let p = spec_deserialize_str(data, pos).unwrap();
    assert(spec_serialize_str(p.0) =~= data.subrange(pos, p.1));
}

/// A parsed command's on-disk bytes are exactly what serializing it writes.
pub proof fn lemma_parse_then_serialize(data: Seq<u8>, pos: int)
    requires
        0 <= pos,
        spec_deserialize(data, pos) is Some,
    ensures
        ({
            let p = spec_deserialize(data, pos).unwrap();
            spec_serialize(p.0) == data.subrange(pos, p.1)
        }),
{
    lemma_parse_cmd_props(data, pos);
    let p = spec_deserialize(data, pos).unwrap();
    let tag = data[pos];
    if tag == TAG_SET {
        let q = spec_deserialize_str(data, pos + 1).unwrap();
        lemma_parse_str_then_serialize(data, pos + 1);
        lemma_parse_str_then_serialize(data, q.1);
        assert(spec_serialize(p.0) =~= data.subrange(pos, p.1));
    } else if tag == TAG_REMOVE || tag == TAG_GET {
        lemma_parse_str_then_serialize(data, pos + 1);
        assert(spec_serialize(p.0) =~= data.subrange(pos, p.1));
    } else {
        assert(spec_serialize(p.0) =~= data.subrange(pos, p.1));
    }
}

/// A string that parses at `pos` parses the same way after `data` is extended.
pub proof fn lemma_deserialize_str_extend(data: Seq<u8>, ext: Seq<u8>, pos: int)
    requires
        0 <= pos,
        spec_deserialize_str(data, pos) is Some,
    ensures
        spec_deserialize_str(data + ext, pos) == spec_deserialize_str(data, pos),
{
    let n = spec_read_u32(data, pos);
    assert(spec_read_u32(data + ext, pos) == n);
    assert((data + ext).subrange(pos + 4, pos + 4 + n) =~= data.subrange(pos + 4, pos + 4 + n));
}

/// A serialized string parses back to itself at the point where it was
/// appended, whatever bytes surround it.
pub proof fn lemma_deserialize_str_at(prefix: Seq<u8>, s: Seq<char>, suffix: Seq<u8>)
    requires
        str_fits(s),
    ensures
        spec_deserialize_str(prefix + spec_serialize_str(s) + suffix, prefix.len() as int)
            == Some((s, prefix.len() + 4 + str_byte_len(s))),
{
    let data = prefix + spec_serialize_str(s) + suffix;
    let pos = prefix.len() as int;
    let n = str_byte_len(s);
    assert(data.subrange(pos, pos + 4) =~= spec_be32(n));
    lemma_be32_read(data, pos, n);
    assert(data.subrange(pos + 4, pos + 4 + n) =~= encode_utf8(s));
    vstd::utf8::encode_utf8_valid_utf8(s);
    vstd::utf8::encode_utf8_decode_utf8(s);
}

/// A command that parses at `pos` parses the same way after `data` is extended.
pub proof fn lemma_deserialize_extend(data: Seq<u8>, ext: Seq<u8>, pos: int)
    requires
        0 <= pos,
        spec_deserialize(data, pos) is Some,
    ensures
        spec_deserialize(data + ext, pos) == spec_deserialize(data, pos),
{
    let tag = data[pos];
    if tag == TAG_SET {
        let (key, p2) = spec_deserialize_str(data, pos + 1).unwrap();
        lemma_deserialize_str_extend(data, ext, pos + 1);
        lemma_deserialize_str_extend(data, ext, p2);
    } else if tag == TAG_REMOVE || tag == TAG_GET {
        lemma_deserialize_str_extend(data, ext, pos + 1);
    }
}

/// A serialized command parses back to itself at the point where it was
/// appended, whatever bytes surround it.
#[verifier::rlimit(50)]
pub proof fn lemma_deserialize_at(prefix: Seq<u8>, c: CommandV, suffix: Seq<u8>)
    requires
        cmd_fits(c),
    ensures
        spec_deserialize(prefix + spec_serialize(c) + suffix, prefix.len() as int) == Some(
            (c, (prefix.len() + spec_serialize(c).len()) as int),
        ),
{
    let data = prefix + spec_serialize(c) + suffix;
    let pos = prefix.len() as int;
    match c {
        CommandV::Put { key, value } => {
            assert(data == (prefix + seq![TAG_SET]) + spec_serialize_str(key)
                + (spec_serialize_str(value) + suffix)) by {
                assert(data =~= (prefix + seq![TAG_SET]) + spec_serialize_str(key) + (
                spec_serialize_str(value) + suffix));
            }
            lemma_deserialize_str_at(prefix + seq![TAG_SET], key, spec_serialize_str(value)
                + suffix);
            let p2 = pos + 1 + 4 + str_byte_len(key);
            assert(data == ((prefix + seq![TAG_SET]) + spec_serialize_str(key))
                + spec_serialize_str(value) + suffix) by {
                assert(data =~= ((prefix + seq![TAG_SET]) + spec_serialize_str(key))
                    + spec_serialize_str(value) + suffix);
            }
            lemma_deserialize_str_at(
                (prefix + seq![TAG_SET]) + spec_serialize_str(key),
                value,
                suffix,
            );
            assert(data[pos] == TAG_SET);
            assert(spec_deserialize_str(data, pos + 1) == Some((key, p2)));
        },
        CommandV::Remove { key } => {
            assert(data == (prefix + seq![TAG_REMOVE]) + spec_serialize_str(key) + suffix) by {
                assert(data =~= (prefix + seq![TAG_REMOVE]) + spec_serialize_str(key) + suffix);
            }
            lemma_deserialize_str_at(prefix + seq![TAG_REMOVE], key, suffix);
            assert(data[pos] == TAG_REMOVE);
        },
        CommandV::Get { key } => {
            assert(data == (prefix + seq![TAG_GET]) + spec_serialize_str(key) + suffix) by {
                assert(data =~= (prefix + seq![TAG_GET]) + spec_serialize_str(key) + suffix);
            }
            lemma_deserialize_str_at(prefix + seq![TAG_GET], key, suffix);
            assert(data[pos] == TAG_GET);
        },
        CommandV::Reset => {
            assert(data[pos] == TAG_RESET);
        },
    }
}

} // verus!
