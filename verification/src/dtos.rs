//! Wire protocol values and the packages that travel the broker.
//!
//! A request or response on the binary protocol is one
//! `LiNaProtocol` message: a flag byte, a fixed-width zero-padded
//! identifier, little-endian length and CRC32 checksum words, and the
//! payload bytes. A `Package` is one in-flight request or response
//! between a front end and the worker.

use crate::codec::clone_bytes;
use vstd::prelude::*;

verus! {

/// Width of the fixed identifier field on the wire.
pub const NAME_SIZE: usize = 255;

/// What crc32fast computes: the IEEE CRC32 of the bytes alone.
pub uninterp spec fn crc32_of(b: Seq<u8>) -> u32;

/// Relies on `crc32fast::Hasher` over a single update.
#[verifier::external_body]
fn crc32(data: &Vec<u8>) -> (r: u32)
    ensures
        r == crc32_of(data@),
{
    let mut h = crc32fast::Hasher::new();
    h.update(data.as_slice());
    h.finalize()
}

/// Relies on uuid's `Uuid::new_v4`: 16 random bytes; nothing is
/// promised of their value.
#[verifier::external_body]
fn new_uuid_bytes() -> (r: [u8; 16]) {
    uuid::Uuid::new_v4().into_bytes()
}

/// Relies on chrono's `Utc::now().timestamp()`; nothing is promised of
/// the clock's value.
#[verifier::external_body]
pub(crate) fn now_timestamp() -> (r: i64) {
    chrono::Utc::now().timestamp()
}

/// The payload part of a wire message.
#[derive(Debug)]
pub struct PayLoad {
    pub identifier: [u8; NAME_SIZE],
    pub length: u32,
    pub checksum: u32,
    pub data: Vec<u8>,
}

impl Clone for PayLoad {
    fn clone(&self) -> (r: Self)
        ensures
            r.identifier == self.identifier,
            r.length == self.length,
            r.checksum == self.checksum,
            r.data@ == self.data@,
    {
        PayLoad {
            identifier: self.identifier,
            length: self.length,
            checksum: self.checksum,
            data: clone_bytes(&self.data),
        }
    }
}

/// The operation and option bits of the flag byte.
#[derive(Clone, Copy, Debug, PartialEq, Eq, Structural)]
pub enum FlagType {
    Delete,
    Write,
    Read,
    Auth,
    Cover,
    Compress,
    Unspecified,
}

/// The wire encoding of each flag.
pub open spec fn spec_flag_code(f: FlagType) -> u8 {
    match f {
        FlagType::Delete => 0xC0,
        FlagType::Write => 0x80,
        FlagType::Read => 0x40,
        FlagType::Auth => 0x30,
        FlagType::Cover => 0x02,
        FlagType::Compress => 0x01,
        FlagType::Unspecified => 0x00,
    }
}

impl FlagType {
    /// This flag's bit pattern.
    pub fn code(&self) -> (r: u8)
        ensures
            r == spec_flag_code(*self),
    {
        match self {
            FlagType::Delete => 0xC0,
            FlagType::Write => 0x80,
            FlagType::Read => 0x40,
            FlagType::Auth => 0x30,
            FlagType::Cover => 0x02,
            FlagType::Compress => 0x01,
            FlagType::Unspecified => 0x00,
        }
    }
}

/// The status of a reply.
#[derive(Clone, Copy, Debug, PartialEq, Eq, Structural)]
pub enum Status {
    Success,
    FileNotFound,
    StoreFailed,
    FileNameInvalid,
    InternalError,
    Unspecified,
}

/// The wire encoding of each status.
pub open spec fn spec_status_code(s: Status) -> u8 {
    match s {
        Status::Success => 0,
        Status::FileNotFound => 1,
        Status::StoreFailed => 2,
        Status::FileNameInvalid => 3,
        Status::InternalError => 127,
        Status::Unspecified => 255,
    }
}

impl Status {
    /// This status's wire byte.
    pub fn code(&self) -> (r: u8)
        ensures
            r == spec_status_code(*self),
    {
        match self {
            Status::Success => 0,
            Status::FileNotFound => 1,
            Status::StoreFailed => 2,
            Status::FileNameInvalid => 3,
            Status::InternalError => 127,
            Status::Unspecified => 255,
        }
    }
}

/// What the worker is asked to do.
#[derive(Clone, Copy, Debug, PartialEq, Eq, Structural)]
pub enum Behavior {
    GetFile,
    PutFile,
    DeleteFile,
    Unspecified,
}

/// Rejections of a wire message.
#[derive(Clone, Copy, Debug, PartialEq, Eq, Structural)]
pub enum ProtocolError {
    /// The buffer ends before the header or the announced payload does.
    Truncated,
    /// The announced payload exceeds the configured maximum.
    PayloadTooLarge,
    /// The checksum word does not match the message's own CRC32.
    ChecksumMismatch,
}

/// A 32-bit value as its four little-endian bytes.
pub open spec fn u32_le_spec(x: u32) -> Seq<u8> {
    seq![
        (x % 256) as u8,
        ((x / 256) % 256) as u8,
        ((x / 0x10000) % 256) as u8,
        ((x / 0x1000000) % 256) as u8,
    ]
}

/// Four little-endian bytes as their 32-bit value.
pub open spec fn u32_from_le_spec(s: Seq<u8>) -> u32
    recommends
        s.len() == 4,
{
    (s[0] + 256 * s[1] + 0x10000 * s[2] + 0x1000000 * s[3]) as u32
}

/// The bytes the protocol checksum covers: identifier, then the length
/// word, then the payload.
pub open spec fn checksum_input(p: LiNaProtocol) -> Seq<u8> {
    p.payload.identifier@ + u32_le_spec(p.payload.length) + p.payload.data@
}

/// Whether the flag byte carries the Write operation bits.
pub open spec fn spec_is_write(flags: u8) -> bool {
    flags & 0x80 == 0x80
}

/// One message of the binary protocol.
#[derive(Debug)]
pub struct LiNaProtocol {
    pub flags: u8,
    pub status: Status,
    pub payload: PayLoad,
}

impl Clone for LiNaProtocol {
    fn clone(&self) -> (r: Self)
        ensures
            r.flags == self.flags,
            r.status == self.status,
            r.payload.identifier == self.payload.identifier,
            r.payload.length == self.payload.length,
            r.payload.checksum == self.payload.checksum,
            r.payload.data@ == self.payload.data@,
    {
        LiNaProtocol { flags: self.flags, status: self.status, payload: self.payload.clone() }
    }
}

impl LiNaProtocol {
    /// An empty message: no flags, no status, a zeroed identifier and
    /// no payload.
    pub fn new() -> (r: Self)
        ensures
            r.flags == 0,
            r.status == Status::Unspecified,
            forall|i: int| 0 <= i < NAME_SIZE ==> r.payload.identifier@[i] == 0,
            r.payload.length == 0,
            r.payload.checksum == 0,
            r.payload.data@.len() == 0,
    {
        LiNaProtocol {
            flags: 0,
            status: Status::Unspecified,
            payload: PayLoad { identifier: [0; NAME_SIZE], length: 0, checksum: 0, data: Vec::new() },
        }
    }

    /// The message's own CRC32, over identifier, length word and data.
    pub fn calculate_checksum(&self) -> (r: u32)
        ensures
            r == crc32_of(checksum_input(*self)),
    {
        let mut buf: Vec<u8> = Vec::new();
        buf.extend_from_slice(self.payload.identifier.as_slice());
        let x = self.payload.length;
        buf.push((x % 256) as u8);
        buf.push(((x / 256) % 256) as u8);
        buf.push(((x / 0x10000) % 256) as u8);
        buf.push(((x / 0x1000000) % 256) as u8);
        buf.extend_from_slice(self.data_slice());
        proof {
            assert(buf@ =~= checksum_input(*self));
        }
        crc32(&buf)
    }

    /// The payload bytes.
    fn data_slice(&self) -> (r: &[u8])
        ensures
            r@ == self.payload.data@,
    {
        self.payload.data.as_slice()
    }

    /// Whether the stored checksum matches the message's own CRC32.
    pub fn verify(&self) -> (r: bool)
        ensures
            r == (self.payload.checksum == crc32_of(checksum_input(*self))),
    {
        self.payload.checksum == self.calculate_checksum()
    }

    /// Serialize a response: status byte, identifier, length and
    /// checksum words, then the payload.
    pub fn serialize_protocol_message(&self) -> (r: Vec<u8>)
        ensures
            r@ == seq![spec_status_code(self.status)] + self.payload.identifier@ + u32_le_spec(
                self.payload.length,
            ) + u32_le_spec(self.payload.checksum) + self.payload.data@,
    {
        let mut buf: Vec<u8> = Vec::new();
        buf.push(self.status.code());
        buf.extend_from_slice(self.payload.identifier.as_slice());
        let x = self.payload.length;
        buf.push((x % 256) as u8);
        buf.push(((x / 256) % 256) as u8);
        buf.push(((x / 0x10000) % 256) as u8);
        buf.push(((x / 0x1000000) % 256) as u8);
        let c = self.payload.checksum;
        buf.push((c % 256) as u8);
        buf.push(((c / 256) % 256) as u8);
        buf.push(((c / 0x10000) % 256) as u8);
        buf.push(((c / 0x1000000) % 256) as u8);
        buf.extend_from_slice(self.data_slice());
        proof {
            assert(buf@ =~= seq![spec_status_code(self.status)] + self.payload.identifier@
                + u32_le_spec(self.payload.length) + u32_le_spec(self.payload.checksum)
                + self.payload.data@);
        }
        buf
    }

    /// Parse a request from a complete buffer. The header is a flag
    /// byte, the identifier, then length and checksum words; only a
    /// Write request carries payload bytes, exactly as many as the
    /// length word announces; the checksum must match and the payload
    /// must fit the configured bound.
    pub fn parse_protocol_message(buf: &Vec<u8>, max_payload_size: usize) -> (r: Result<
        LiNaProtocol,
        ProtocolError,
    >)
        ensures
            ({
                let n = buf@.len();
                &&& (n < 264 ==> r == Err::<LiNaProtocol, ProtocolError>(ProtocolError::Truncated))
                &&& (n >= 264 ==> {
                    let flags = buf@[0];
                    let len = u32_from_le_spec(buf@.subrange(256, 260));
                    let want = if spec_is_write(flags) {
                        264 + len as int
                    } else {
                        264
                    };
                    if len as int > max_payload_size as int {
                        r == Err::<LiNaProtocol, ProtocolError>(ProtocolError::PayloadTooLarge)
                    } else if n != want {
                        r == Err::<LiNaProtocol, ProtocolError>(ProtocolError::Truncated)
                    } else {
                        match r {
                            Ok(p) => {
                                &&& p.flags == flags
                                &&& p.status == Status::Unspecified
                                &&& p.payload.identifier@ == buf@.subrange(1, 256)
                                &&& p.payload.length == len
                                &&& p.payload.checksum == u32_from_le_spec(
                                    buf@.subrange(260, 264),
                                )
                                &&& p.payload.data@ == buf@.subrange(264, n as int)
                                &&& p.payload.checksum == crc32_of(checksum_input(p))
                            },
                            Err(e) => {
                                e == ProtocolError::ChecksumMismatch && u32_from_le_spec(
                                    buf@.subrange(260, 264),
                                ) != crc32_of(
                                    buf@.subrange(1, 256) + u32_le_spec(len) + buf@.subrange(
                                        264,
                                        n as int,
                                    ),
                                )
                            },
                        }
                    }
                })
            }),
    {
        let n = buf.len();
        if n < 264 {
            return Err(ProtocolError::Truncated);
        }
        let flags = buf[0];
        let mut identifier: [u8; NAME_SIZE] = [0; NAME_SIZE];
        let mut i: usize = 0;
        while i < 255
            invariant
                i <= 255,
                buf@.len() >= 264,
                forall|k: int| 0 <= k < i ==> identifier@[k] == buf@[1 + k],
            decreases 255 - i,
        {
            identifier[i] = buf[1 + i];
            i += 1;
        }
        proof {
            assert(identifier@ =~= buf@.subrange(1, 256));
        }
        let length: u32 = (buf[256] as u32) + 256 * (buf[257] as u32) + 0x10000 * (
        buf[258] as u32) + 0x1000000 * (buf[259] as u32);
        let checksum: u32 = (buf[260] as u32) + 256 * (buf[261] as u32) + 0x10000 * (
        buf[262] as u32) + 0x1000000 * (buf[263] as u32);
        proof {
            assert(length == u32_from_le_spec(buf@.subrange(256, 260)));
            assert(checksum == u32_from_le_spec(buf@.subrange(260, 264)));
        }
        if length as usize > max_payload_size {
            return Err(ProtocolError::PayloadTooLarge);
        }
        let is_write = flags & 0x80 == 0x80;
        let want: usize = if is_write {
            if length as usize > usize::MAX - 264 {
                return Err(ProtocolError::Truncated);
            }
            264 + length as usize
        } else {
            264
        };
        if n != want {
            return Err(ProtocolError::Truncated);
        }
        let mut data: Vec<u8> = Vec::new();
        let mut j: usize = 264;
        while j < n
            invariant
                264 <= j <= n,
                n == buf@.len(),
                data@ == buf@.subrange(264, j as int),
            decreases n - j,
        {
            data.push(buf[j]);
            proof {
                assert(data@ =~= buf@.subrange(264, j + 1 as int));
            }
            j += 1;
        }
        let message = LiNaProtocol {
            flags,
            status: Status::Unspecified,
            payload: PayLoad { identifier, length, checksum, data },
        };
        proof {
            assert(message.payload.data@ =~= buf@.subrange(264, n as int));
        }
        if message.verify() {
            Ok(message)
        } else {
            Err(ProtocolError::ChecksumMismatch)
        }
    }
}

/// The content an order or reply carries.
#[derive(Debug)]
pub struct Content {
    pub flags: u8,
    pub identifier: [u8; NAME_SIZE],
    pub data: Vec<u8>,
}

impl Clone for Content {
    fn clone(&self) -> (r: Self)
        ensures
            r.flags == self.flags,
            r.identifier == self.identifier,
            r.data@ == self.data@,
    {
        Content { flags: self.flags, identifier: self.identifier, data: clone_bytes(&self.data) }
    }
}

/// One in-flight request or response on the broker.
#[derive(Debug)]
pub struct Package {
    pub status: Status,
    pub uni_id: [u8; 16],
    pub behavior: Behavior,
    pub content: Content,
    pub created_at: i64,
}

impl Clone for Package {
    fn clone(&self) -> (r: Self)
        ensures
            r.status == self.status,
            r.uni_id == self.uni_id,
            r.behavior == self.behavior,
            r.content.flags == self.content.flags,
            r.content.identifier == self.content.identifier,
            r.content.data@ == self.content.data@,
            r.created_at == self.created_at,
    {
        Package {
            status: self.status,
            uni_id: self.uni_id,
            behavior: self.behavior,
            content: self.content.clone(),
            created_at: self.created_at,
        }
    }
}

impl Package {
    /// A fresh read package under a new random id; its id and creation
    /// time come from the machine and are not pinned.
    pub fn new() -> (r: Self)
        ensures
            r.status == Status::Unspecified,
            r.behavior == Behavior::Unspecified,
            r.content.flags == 0x40,
            forall|i: int| 0 <= i < NAME_SIZE ==> r.content.identifier@[i] == 0,
            r.content.data@.len() == 0,
    {
        Package {
            status: Status::Unspecified,
            uni_id: new_uuid_bytes(),
            behavior: Behavior::Unspecified,
            content: Content { flags: 0x40, identifier: [0; NAME_SIZE], data: Vec::new() },
            created_at: now_timestamp(),
        }
    }

    /// A fresh empty package under a caller-chosen id; its creation
    /// time comes from the clock and is not pinned.
    pub fn new_with_id(uni_id: &[u8; 16]) -> (r: Self)
        ensures
            r.status == Status::Unspecified,
            r.uni_id@ == uni_id@,
            r.behavior == Behavior::Unspecified,
            r.content.flags == 0,
            forall|i: int| 0 <= i < NAME_SIZE ==> r.content.identifier@[i] == 0,
            r.content.data@.len() == 0,
    {
        Package {
            status: Status::Unspecified,
            uni_id: *uni_id,
            behavior: Behavior::Unspecified,
            content: Content { flags: 0, identifier: [0; NAME_SIZE], data: Vec::new() },
            created_at: now_timestamp(),
        }
    }
}

/// Whether two broker ids hold the same bytes.
pub fn ids_equal(a: &[u8; 16], b: &[u8; 16]) -> (r: bool)
    ensures
        r == (a@ == b@),
{
    let mut i: usize = 0;
    while i < 16
        invariant
            i <= 16,
            forall|k: int| 0 <= k < i ==> a@[k] == b@[k],
        decreases 16 - i,
    {
        if a[i] != b[i] {
            return false;
        }
        i += 1;
    }
    proof {
        assert(a@ =~= b@);
    }
    true
}

} // verus!
