//! The wire protocol: framing a tagged command as bytes and parsing it back.
//!
//! A frame is a 4-byte little-endian length (counting the length field itself,
//! the tag byte and the payload), one tag byte, then the payload. Each string
//! field in the payload is a 4-byte little-endian count of its UTF-8 bytes
//! followed by those bytes. The same framing is used for the records of the
//! persisted segment log, which holds `SetEntry` and `Remove` frames only.

use vstd::bytes::*;
use vstd::prelude::*;
use vstd::slice::*;
use vstd::utf8::*;

use crate::error::KvsError;

verus! {

pub const GET_TAG: u8 = 0;

pub const GET_RESPONSE_TAG: u8 = 1;

pub const NOT_FOUND_TAG: u8 = 2;

pub const SET_TAG: u8 = 3;

pub const SET_RESPONSE_TAG: u8 = 4;

pub const REMOVE_TAG: u8 = 5;

pub const REMOVE_RESPONSE_TAG: u8 = 6;

pub const ERROR_TAG: u8 = 7;

/// A command exchanged with the key-value store, or appended to its log.
#[derive(Debug, PartialEq, Clone)]
pub enum Command {
    /// Get the value for a string key.
    Get(String),
    /// The value for a string key.
    GetResponse(String),
    /// If no value exists for a key.
    NotFound,
    /// Set key to value.
    SetEntry(String, String),
    /// Successful set response.
    SetResponse,
    /// Remove the entry for the given key.
    Remove(String),
    /// Successful remove response.
    RemoveResponse,
    /// An error reported by the server.
    Error(String),
}

/// The mathematical shape of a command: each string field as its characters.
pub enum CommandV {
    Get(Seq<char>),
    GetResponse(Seq<char>),
    NotFound,
    SetEntry(Seq<char>, Seq<char>),
    SetResponse,
    Remove(Seq<char>),
    RemoveResponse,
    Error(Seq<char>),
}

impl View for Command {
    type V = CommandV;

    open spec fn view(&self) -> CommandV {
        match self {
            Command::Get(k) => CommandV::Get(k@),
            Command::GetResponse(v) => CommandV::GetResponse(v@),
            Command::NotFound => CommandV::NotFound,
            Command::SetEntry(k, v) => CommandV::SetEntry(k@, v@),
            Command::SetResponse => CommandV::SetResponse,
            Command::Remove(k) => CommandV::Remove(k@),
            Command::RemoveResponse => CommandV::RemoveResponse,
            Command::Error(m) => CommandV::Error(m@),
        }
    }
}

/// The tag byte that identifies each command variant on the wire.
pub open spec fn spec_tag(c: CommandV) -> u8 {
    match c {
        CommandV::Get(_) => GET_TAG,
        CommandV::GetResponse(_) => GET_RESPONSE_TAG,
        CommandV::NotFound => NOT_FOUND_TAG,
        CommandV::SetEntry(_, _) => SET_TAG,
        CommandV::SetResponse => SET_RESPONSE_TAG,
        CommandV::Remove(_) => REMOVE_TAG,
        CommandV::RemoveResponse => REMOVE_RESPONSE_TAG,
        CommandV::Error(_) => ERROR_TAG,
    }
}

/// The bytes of one length-prefixed string field.
pub open spec fn spec_field(s: Seq<char>) -> Seq<u8> {
    spec_u32_to_le_bytes(encode_utf8(s).len() as u32) + encode_utf8(s)
}

/// The payload that follows the tag byte of each variant.
pub open spec fn spec_payload(c: CommandV) -> Seq<u8> {
    match c {
        CommandV::Get(k) => spec_field(k),
        CommandV::GetResponse(v) => spec_field(v),
        CommandV::NotFound => Seq::empty(),
        CommandV::SetEntry(k, v) => spec_field(k) + spec_field(v),
        CommandV::SetResponse => Seq::empty(),
        CommandV::Remove(k) => spec_field(k),
        CommandV::RemoveResponse => Seq::empty(),
        CommandV::Error(m) => spec_field(m),
    }
}

/// Whether the frame for `c` fits its 4-byte length prefix.
pub open spec fn fits(c: CommandV) -> bool {
    5 + spec_payload(c).len() <= u32::MAX
}

/// One whole frame for `c`.
pub open spec fn spec_serialize(c: CommandV) -> Seq<u8> {
    spec_u32_to_le_bytes((5 + spec_payload(c).len()) as u32) + seq![spec_tag(c)] + spec_payload(c)
}

/// The little-endian word at offset `lo`.
pub open spec fn spec_read_u32(bytes: Seq<u8>, lo: int) -> u32 {
    spec_u32_from_le_bytes(bytes.subrange(lo, lo + 4))
}

/// Parses one length-prefixed string field at offset `o`: the decoded
/// characters and the offset just past the field, or nothing if the declared
/// length runs past the end or the content is not UTF-8.
pub open spec fn spec_read_field(bytes: Seq<u8>, o: int) -> Option<(Seq<char>, int)> {
    if o + 4 > bytes.len() {
        None
    } else {
        let n = spec_read_u32(bytes, o) as int;
        if o + 4 + n > bytes.len() {
            None
        } else {
            let content = bytes.subrange(o + 4, o + 4 + n);
            if valid_utf8(content) {
                Some((decode_utf8(content), o + 4 + n))
            } else {
                None
            }
        }
    }
}

/// Parses one frame into a command. The outer length prefix at offset 0 is
/// not re-checked: the caller cuts the frame to that length beforehand.
pub open spec fn spec_deserialize(bytes: Seq<u8>) -> Option<CommandV> {
    if bytes.len() < 5 {
        None
    } else {
        let tag = bytes[4];
        if tag == GET_TAG {
            match spec_read_field(bytes, 5) {
                Some((k, _)) => Some(CommandV::Get(k)),
                None => None,
            }
        } else if tag == GET_RESPONSE_TAG {
            match spec_read_field(bytes, 5) {
                Some((v, _)) => Some(CommandV::GetResponse(v)),
                None => None,
            }
        } else if tag == NOT_FOUND_TAG {
            Some(CommandV::NotFound)
        } else if tag == SET_TAG {
            match spec_read_field(bytes, 5) {
                Some((k, next)) => match spec_read_field(bytes, next) {
                    Some((v, _)) => Some(CommandV::SetEntry(k, v)),
                    None => None,
                },
                None => None,
            }
        } else if tag == SET_RESPONSE_TAG {
            Some(CommandV::SetResponse)
        } else if tag == REMOVE_TAG {
            match spec_read_field(bytes, 5) {
                Some((k, _)) => Some(CommandV::Remove(k)),
                None => None,
            }
        } else if tag == REMOVE_RESPONSE_TAG {
            Some(CommandV::RemoveResponse)
        } else if tag == ERROR_TAG {
            match spec_read_field(bytes, 5) {
                Some((m, _)) => Some(CommandV::Error(m)),
                None => None,
            }
        } else {
            None
        }
    }
}

/// Relies on String::from_utf8: it succeeds exactly on UTF-8 input, and the
/// returned string re-encodes to the input bytes.
#[verifier::external_body]
fn bytes_to_string(bytes: &[u8]) -> (r: Option<String>)
    ensures
        r is Some <==> valid_utf8(bytes@),
        r matches Some(s) ==> encode_utf8(s@) == bytes@,
{
    String::from_utf8(bytes.to_vec()).ok()
}

/// Reads the little-endian word at offset `lo`.
pub fn read_u32(bytes: &[u8], lo: usize) -> (r: u32)
    requires
        lo + 4 <= bytes@.len(),
    ensures
        r == spec_read_u32(bytes@, lo as int),
{
    let _len: usize = bytes.len();
    u32_from_le_bytes(slice_subrange(bytes, lo, lo + 4))
}

/// Decodes `len` bytes at `offset` as a UTF-8 string.
pub fn read_string(bytes: &[u8], offset: usize, len: usize) -> (r: Result<String, KvsError>)
    requires
        offset + len <= bytes@.len(),
    ensures
        ({
            let content = bytes@.subrange(offset as int, offset as int + len as int);
            match r {
                Ok(s) => valid_utf8(content) && s@ == decode_utf8(content) && encode_utf8(s@)
                    == content,
                Err(e) => !valid_utf8(content) && e == KvsError::Encoding,
            }
        }),
{
    let _total: usize = bytes.len();
    let slice = slice_subrange(bytes, offset, offset + len);
    match bytes_to_string(slice) {
        Some(s) => {
            proof {
                encode_utf8_decode_utf8(s@);
            }
            Ok(s)
        },
        None => Err(KvsError::Encoding),
    }
}

/// Reads one length-prefixed string field at offset `o`.
fn read_field(bytes: &[u8], o: usize) -> (r: Result<(String, usize), KvsError>)
    requires
        o <= bytes@.len(),
    ensures
        match r {
            Ok(p) => spec_read_field(bytes@, o as int) == Some((p.0@, p.1 as int)) && o <= p.1
                <= bytes@.len(),
            Err(e) => spec_read_field(bytes@, o as int) is None && e == KvsError::Encoding,
        },
{
    if bytes.len() - o < 4 {
        return Err(KvsError::Encoding);
    }
    let n32: u32 = read_u32(bytes, o);
    let n: usize = n32 as usize;
    if n > bytes.len() - (o + 4) {
        return Err(KvsError::Encoding);
    }
    match read_string(bytes, o + 4, n) {
        Ok(s) => Ok((s, o + 4 + n)),
        Err(e) => Err(e),
    }
}

/// Appends one length-prefixed string field to `v`.
pub fn extend_string(v: &mut Vec<u8>, s: &str)
    requires
        encode_utf8(s@).len() <= u32::MAX,
    ensures
        final(v)@ == old(v)@ + spec_field(s@),
{
    let lb = u32_to_le_bytes(s.len() as u32);
    v.extend_from_slice(lb.as_slice());
    v.extend_from_slice(s.as_bytes());
    proof {
        assert(v@ =~= old(v)@ + spec_field(s@));
    }
}

impl Command {
    /// The byte length of the payload that `serialize` would emit.
    fn payload_len(&self) -> (r: usize)
        requires
            fits(self@),
        ensures
            r == spec_payload(self@).len(),
    {
        proof {
            lemma_auto_spec_u32_to_from_le_bytes();
        }
        match self {
            Command::Get(k) => 4 + k.as_str().len(),
            Command::GetResponse(v) => 4 + v.as_str().len(),
            Command::NotFound => 0,
            Command::SetEntry(k, v) => 8 + k.as_str().len() + v.as_str().len(),
            Command::SetResponse => 0,
            Command::Remove(k) => 4 + k.as_str().len(),
            Command::RemoveResponse => 0,
            Command::Error(m) => 4 + m.as_str().len(),
        }
    }

    /// Serializes the command into one frame.
    pub fn serialize(&self) -> (r: Vec<u8>)
        requires
            fits(self@),
        ensures
            r@ == spec_serialize(self@),
    {
        proof {
            lemma_auto_spec_u32_to_from_le_bytes();
        }
        let payload_len: usize = self.payload_len();
        let total: u32 = (payload_len + 5) as u32;
        let mut r: Vec<u8> = u32_to_le_bytes(total);
        match self {
            Command::Get(_) => r.push(GET_TAG),
            Command::GetResponse(_) => r.push(GET_RESPONSE_TAG),
            Command::NotFound => r.push(NOT_FOUND_TAG),
            Command::SetEntry(_, _) => r.push(SET_TAG),
            Command::SetResponse => r.push(SET_RESPONSE_TAG),
            Command::Remove(_) => r.push(REMOVE_TAG),
            Command::RemoveResponse => r.push(REMOVE_RESPONSE_TAG),
            Command::Error(_) => r.push(ERROR_TAG),
        }
        match self {
            Command::Get(k) => extend_string(&mut r, k.as_str()),
            Command::GetResponse(v) => extend_string(&mut r, v.as_str()),
            Command::NotFound => (),
            Command::SetEntry(k, v) => {
                extend_string(&mut r, k.as_str());
                extend_string(&mut r, v.as_str());
            },
            Command::SetResponse => (),
            Command::Remove(k) => extend_string(&mut r, k.as_str()),
            Command::RemoveResponse => (),
            Command::Error(m) => extend_string(&mut r, m.as_str()),
        }
        proof {
            assert(r@ =~= spec_serialize(self@));
        }
        r
    }

    /// Parses one frame. The caller cuts the frame to the outer length prefix
    /// before calling; that prefix is not re-validated here.
    pub fn deserialize(bytes: &[u8]) -> (r: Result<Command, KvsError>)
        ensures
            match r {
                Ok(c) => spec_deserialize(bytes@) == Some(c@),
                Err(e) => spec_deserialize(bytes@) is None && e == KvsError::Encoding,
            },
    {
        if bytes.len() < 5 {
            return Err(KvsError::Encoding);
        }
        let tag: u8 = *slice_index_get(bytes, 4);
        if tag == GET_TAG {
            match read_field(bytes, 5) {
                Ok((k, _)) => Ok(Command::Get(k)),
                Err(e) => Err(e),
            }
        } else if tag == GET_RESPONSE_TAG {
            match read_field(bytes, 5) {
                Ok((v, _)) => Ok(Command::GetResponse(v)),
                Err(e) => Err(e),
            }
        } else if tag == NOT_FOUND_TAG {
            Ok(Command::NotFound)
        } else if tag == SET_TAG {
            match read_field(bytes, 5) {
                Ok((k, next)) => match read_field(bytes, next) {
                    Ok((v, _)) => Ok(Command::SetEntry(k, v)),
                    Err(e) => Err(e),
                },
                Err(e) => Err(e),
            }
        } else if tag == SET_RESPONSE_TAG {
            Ok(Command::SetResponse)
        } else if tag == REMOVE_TAG {
            match read_field(bytes, 5) {
                Ok((k, _)) => Ok(Command::Remove(k)),
                Err(e) => Err(e),
            }
        } else if tag == REMOVE_RESPONSE_TAG {
            Ok(Command::RemoveResponse)
        } else if tag == ERROR_TAG {
            match read_field(bytes, 5) {
                Ok((m, _)) => Ok(Command::Error(m)),
                Err(e) => Err(e),
            }
        } else {
            Err(KvsError::Encoding)
        }
    }
}

/// A UTF-8 encoding takes at most four bytes per character.
pub proof fn lemma_encode_utf8_len(s: Seq<char>)
    ensures
        encode_utf8(s).len() <= 4 * s.len(),
    decreases s.len(),
{
    if s.len() > 0 {
        lemma_encode_utf8_len(s.drop_first());
    }
}

/// The length of one encoded field.
pub proof fn lemma_field_len(s: Seq<char>)
    ensures
        spec_field(s).len() == 4 + encode_utf8(s).len(),
{
    lemma_auto_spec_u32_to_from_le_bytes();
}

/// Parsing a field out of a frame that embeds one at offset `o` yields the
/// field's characters and the offset just past it.
proof fn lemma_read_field_at(bytes: Seq<u8>, o: int, s: Seq<char>)
    requires
        0 <= o,
        encode_utf8(s).len() <= u32::MAX,
        o + spec_field(s).len() <= bytes.len(),
        bytes.subrange(o, o + spec_field(s).len() as int) == spec_field(s),
    ensures
        spec_read_field(bytes, o) == Some((s, o + spec_field(s).len())),
{
    lemma_auto_spec_u32_to_from_le_bytes();
    lemma_field_len(s);
    let n = encode_utf8(s).len() as int;
    assert(bytes.subrange(o, o + 4) =~= spec_u32_to_le_bytes(encode_utf8(s).len() as u32));
    assert(spec_read_u32(bytes, o) == encode_utf8(s).len() as u32);
    assert forall|i: int| 0 <= i < n implies bytes[o + 4 + i] == encode_utf8(s)[i] by {
        assert(bytes.subrange(o, o + spec_field(s).len() as int)[4 + i] == bytes[o + 4 + i]);
    }
    assert(bytes.subrange(o + 4, o + 4 + n) =~= encode_utf8(s));
    encode_utf8_valid_utf8(s);
    encode_utf8_decode_utf8(s);
}

/// A `SetEntry` parsed out of a frame has key and value that fit back into
/// one frame: the parsed fields take thirteen bytes fewer than the frame.
pub proof fn lemma_deserialize_record_bounds(bytes: Seq<u8>, k: Seq<char>, v: Seq<char>)
    requires
        spec_deserialize(bytes) == Some(CommandV::SetEntry(k, v)),
    ensures
        encode_utf8(k).len() + encode_utf8(v).len() + 13 <= bytes.len(),
{
    assert(spec_read_field(bytes, 5) is Some);
    let (k0, next) = spec_read_field(bytes, 5).unwrap();
    let nk = spec_read_u32(bytes, 5) as int;
    let content_k = bytes.subrange(9, 9 + nk);
    decode_utf8_encode_utf8(content_k);
    assert(encode_utf8(k).len() == nk);
    assert(spec_read_field(bytes, next) is Some);
    let (v0, end) = spec_read_field(bytes, next).unwrap();
    let nv = spec_read_u32(bytes, next) as int;
    let content_v = bytes.subrange(next + 4, next + 4 + nv);
    decode_utf8_encode_utf8(content_v);
    assert(encode_utf8(v).len() == nv);
    assert(end <= bytes.len());
}

/// Round trip: a frame built from any command that fits parses back to the
/// same command, whatever its string fields hold.
pub proof fn lemma_serialize_deserialize(c: CommandV)
    requires
        fits(c),
    ensures
        spec_deserialize(spec_serialize(c)) == Some(c),
{
    lemma_auto_spec_u32_to_from_le_bytes();
    let bytes = spec_serialize(c);
    assert(bytes[4] == spec_tag(c));
    match c {
        CommandV::Get(k) => {
            lemma_field_len(k);
            assert(bytes.subrange(5, 5 + spec_field(k).len() as int) =~= spec_field(k));
            lemma_read_field_at(bytes, 5, k);
        },
        CommandV::GetResponse(v) => {
            lemma_field_len(v);
            assert(bytes.subrange(5, 5 + spec_field(v).len() as int) =~= spec_field(v));
            lemma_read_field_at(bytes, 5, v);
        },
        CommandV::NotFound => {},
        CommandV::SetEntry(k, v) => {
            lemma_field_len(k);
            lemma_field_len(v);
            assert(bytes.subrange(5, 5 + spec_field(k).len() as int) =~= spec_field(k));
            lemma_read_field_at(bytes, 5, k);
            let next = 5 + spec_field(k).len() as int;
            assert(bytes.subrange(next, next + spec_field(v).len() as int) =~= spec_field(v));
            lemma_read_field_at(bytes, next, v);
        },
        CommandV::SetResponse => {},
        CommandV::Remove(k) => {
            lemma_field_len(k);
            assert(bytes.subrange(5, 5 + spec_field(k).len() as int) =~= spec_field(k));
            lemma_read_field_at(bytes, 5, k);
        },
        CommandV::RemoveResponse => {},
        CommandV::Error(m) => {
            lemma_field_len(m);
            assert(bytes.subrange(5, 5 + spec_field(m).len() as int) =~= spec_field(m));
            lemma_read_field_at(bytes, 5, m);
        },
    }
}

} // verus!
