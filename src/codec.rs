//! The record format: a body of protobuf-style fields, checksummed over the
//! key and value bytes, framed by a 4-byte little-endian length.
use vstd::prelude::*;
use vstd::utf8::{decode_utf8, encode_utf8, valid_utf8};
use crate::error::KvsError;

verus! {

/// Version tag written into every record.
pub const CURRENT_SCHEMA_VERSION: u32 = 1;

/// The LEB128 bytes of `v`, least significant group first.
pub open spec fn varint_bytes(v: u64) -> Seq<u8>
    decreases v,
{
    if v < 128 {
        seq![v as u8]
    } else {
        seq![(v % 128 + 128) as u8] + varint_bytes(v / 128)
    }
}

/// The CRC-32 (IEEE) of a byte sequence.
pub uninterp spec fn crc32_of(b: Seq<u8>) -> u32;

/// Relies on prost::encoding::encode_varint: appends the LEB128 bytes of `v`.
#[verifier::external_body]
fn put_varint(v: u64, buf: &mut Vec<u8>)
    ensures
        final(buf)@ == old(buf)@ + varint_bytes(v),
{
    prost::encoding::encode_varint(v, buf)
}

/// Relies on prost::encoding::decode_varint: reads one varint at `at`, and
/// returns it with the number of bytes left after it. A canonical encoding of
/// a value is read as that value.
#[verifier::external_body]
fn take_varint(data: &[u8], at: usize) -> (r: Option<(u64, usize)>)
    requires
        at <= data@.len(),
    ensures
        r matches Some((v, rest)) ==> rest < data@.len() - at,
        forall|v: u64|
            #![trigger varint_bytes(v)]
            at + varint_bytes(v).len() <= data@.len() && data@.subrange(
                at as int,
                at + varint_bytes(v).len(),
            ) == varint_bytes(v) ==> r == Some((v, (data@.len() - at - varint_bytes(v).len()) as usize)),
{
    let mut rest = &data[at..];
    match prost::encoding::decode_varint(&mut rest) {
        Ok(v) => Some((v, rest.len())),
        Err(_) => None,
    }
}

/// Relies on crc32fast::Hasher (new, update, finalize): the CRC-32 of `b`.
#[verifier::external_body]
fn crc32(b: &[u8]) -> (r: u32)
    ensures
        r == crc32_of(b@),
{
    let mut hasher = crc32fast::Hasher::new();
    hasher.update(b);
    hasher.finalize()
}

/// Relies on String::from_utf8: succeeds exactly on valid UTF-8, with the
/// characters that the bytes encode.
#[verifier::external_body]
fn string_from_utf8(b: Vec<u8>) -> (r: Option<String>)
    ensures
        r is Some <==> valid_utf8(b@),
        r matches Some(s) ==> s@ == decode_utf8(b@),
{
    String::from_utf8(b).ok()
}

/// What a record does.
pub enum Command {
    /// Bind `key` to `value`.
    SetValue { key: String, value: String },
    /// Unbind `key`.
    Remove { key: String },
}

/// One record of the log.
pub struct KvsCommand {
    /// Seconds since the epoch at the time of writing; informational.
    pub timestamp: u64,
    /// Strictly increasing over the records that one store writes.
    pub sequence_number: u64,
    /// CRC-32 of the command's payload (see `payload`).
    pub checksum: u32,
    /// Format version, `CURRENT_SCHEMA_VERSION` when written.
    pub version: u32,
    /// The command; a body without one is not a valid record.
    pub command: Option<Command>,
}

/// The bytes that a record's checksum covers: the key's UTF-8 bytes,
/// followed for `Set` by the value's.
pub open spec fn payload(c: Command) -> Seq<u8> {
    match c {
        Command::SetValue { key, value } => encode_utf8(key@) + encode_utf8(value@),
        Command::Remove { key } => encode_utf8(key@),
    }
}

/// A varint field: its key byte, then the value.
pub open spec fn field(key: u8, v: u64) -> Seq<u8> {
    seq![key] + varint_bytes(v)
}

/// A length-delimited field: its key byte, the length, then the bytes.
pub open spec fn bytes_field(key: u8, b: Seq<u8>) -> Seq<u8> {
    seq![key] + varint_bytes(b.len() as u64) + b
}

// Key bytes of the fields: field number times 8, plus the wire type
// (0 for a varint, 2 for length-delimited bytes).
/// Field 1 of a record: timestamp.
pub const TAG_TIMESTAMP: u8 = 8;
/// Field 2 of a record: sequence number.
pub const TAG_SEQUENCE: u8 = 16;
/// Field 3 of a record: checksum.
pub const TAG_CHECKSUM: u8 = 24;
/// Field 4 of a record: version.
pub const TAG_VERSION: u8 = 32;
/// Field 5 of a record: a `Set` command message.
pub const TAG_SET: u8 = 42;
/// Field 6 of a record: a `Remove` command message.
pub const TAG_REMOVE: u8 = 50;
/// Field 1 of a command message: key.
pub const TAG_KEY: u8 = 10;
/// Field 2 of a `Set` command message: value.
pub const TAG_VALUE: u8 = 18;

/// A varint field left out where its value is zero, the default.
pub open spec fn opt_field(key: u8, v: u64) -> Seq<u8> {
    if v == 0 {
        seq![]
    } else {
        field(key, v)
    }
}

/// A length-delimited field left out where it is empty, the default.
pub open spec fn opt_bytes_field(key: u8, b: Seq<u8>) -> Seq<u8> {
    if b.len() == 0 {
        seq![]
    } else {
        bytes_field(key, b)
    }
}

/// `s` is empty or starts with a byte above `t`: the key byte of a later
/// field, since key bytes ascend through a body.
pub open spec fn starts_above(s: Seq<u8>, t: u8) -> bool {
    s.len() == 0 || s[0] > t
}

/// The nested message of a command.
pub open spec fn command_message(c: Command) -> Seq<u8> {
    match c {
        Command::SetValue { key, value } => opt_bytes_field(TAG_KEY, encode_utf8(key@))
            + opt_bytes_field(TAG_VALUE, encode_utf8(value@)),
        Command::Remove { key } => opt_bytes_field(TAG_KEY, encode_utf8(key@)),
    }
}

/// The command field of a body; absent when there is no command.
pub open spec fn command_field(c: Option<Command>) -> Seq<u8> {
    match c {
        None => seq![],
        Some(cmd) => bytes_field(
            if cmd is SetValue {
                TAG_SET
            } else {
                TAG_REMOVE
            },
            command_message(cmd),
        ),
    }
}

/// The body of a record: the header fields that are not zero, then the
/// command.
pub open spec fn encode_body(r: KvsCommand) -> Seq<u8> {
    opt_field(TAG_TIMESTAMP, r.timestamp) + opt_field(TAG_SEQUENCE, r.sequence_number) + opt_field(
        TAG_CHECKSUM,
        r.checksum as u64,
    ) + opt_field(TAG_VERSION, r.version as u64) + command_field(r.command)
}

/// Relies on std::time::SystemTime::now: the seconds since the epoch now, or
/// zero for a clock set before it.
#[verifier::external_body]
fn now_secs() -> u64 {
    match std::time::SystemTime::now().duration_since(std::time::UNIX_EPOCH) {
        Ok(d) => d.as_secs(),
        Err(_) => 0,
    }
}

fn put_field(buf: &mut Vec<u8>, key: u8, v: u64)
    ensures
        final(buf)@ == old(buf)@ + field(key, v),
{
    buf.push(key);
    put_varint(v, buf);
    assert(final(buf)@ =~= old(buf)@ + field(key, v));
}

fn put_opt_field(buf: &mut Vec<u8>, key: u8, v: u64)
    ensures
        final(buf)@ == old(buf)@ + opt_field(key, v),
{
    if v != 0 {
        put_field(buf, key, v);
    } else {
        assert(final(buf)@ =~= old(buf)@ + opt_field(key, v));
    }
}

fn put_opt_bytes_field(buf: &mut Vec<u8>, key: u8, b: &[u8])
    ensures
        final(buf)@ == old(buf)@ + opt_bytes_field(key, b@),
{
    if b.len() != 0 {
        put_bytes_field(buf, key, b);
    } else {
        assert(final(buf)@ =~= old(buf)@ + opt_bytes_field(key, b@));
    }
}

fn put_bytes_field(buf: &mut Vec<u8>, key: u8, b: &[u8])
    ensures
        final(buf)@ == old(buf)@ + bytes_field(key, b@),
{
    buf.push(key);
    put_varint(b.len() as u64, buf);
    buf.extend_from_slice(b);
    assert(final(buf)@ =~= old(buf)@ + bytes_field(key, b@));
}

impl Command {
    /// A `Set` command.
    pub fn set(key: String, value: String) -> (r: Command)
        ensures
            r == (Command::SetValue { key, value }),
    {
        Command::SetValue { key, value }
    }

    /// A `Remove` command.
    pub fn remove(key: String) -> (r: Command)
        ensures
            r == (Command::Remove { key }),
    {
        Command::Remove { key }
    }

    /// The bytes that the checksum covers.
    pub fn get_fields_for_checksum(&self) -> (r: Vec<u8>)
        ensures
            r@ == payload(*self),
    {
        let mut fields: Vec<u8> = Vec::new();
        match self {
            Command::SetValue { key, value } => {
                fields.extend_from_slice(key.as_str().as_bytes());
                fields.extend_from_slice(value.as_str().as_bytes());
            },
            Command::Remove { key } => {
                fields.extend_from_slice(key.as_str().as_bytes());
            },
        }
        assert(fields@ =~= payload(*self));
        fields
    }

    /// The CRC-32 of the payload.
    pub fn calculate_checksum(&self) -> (r: u32)
        ensures
            r == crc32_of(payload(*self)),
    {
        let fields = self.get_fields_for_checksum();
        crc32(fields.as_slice())
    }

    /// The nested message of the command.
    fn encode_message(&self) -> (r: Vec<u8>)
        ensures
            r@ == command_message(*self),
    {
        let mut buf: Vec<u8> = Vec::new();
        match self {
            Command::SetValue { key, value } => {
                put_opt_bytes_field(&mut buf, TAG_KEY, key.as_str().as_bytes());
                put_opt_bytes_field(&mut buf, TAG_VALUE, value.as_str().as_bytes());
            },
            Command::Remove { key } => {
                put_opt_bytes_field(&mut buf, TAG_KEY, key.as_str().as_bytes());
            },
        }
        assert(buf@ =~= command_message(*self));
        buf
    }
}

impl KvsCommand {
    /// A `Set` record with the given sequence number, stamped with the time now.
    pub fn set(key: String, value: String, sequence: u64) -> (r: KvsCommand)
        ensures
            r.sequence_number == sequence,
            r.version == CURRENT_SCHEMA_VERSION,
            r.command == Some(Command::SetValue { key, value }),
            r.checksum == crc32_of(encode_utf8(key@) + encode_utf8(value@)),
    {
        let command = Command::SetValue { key, value };
        let checksum = command.calculate_checksum();
        KvsCommand {
            timestamp: now_secs(),
            sequence_number: sequence,
            checksum,
            version: CURRENT_SCHEMA_VERSION,
            command: Some(command),
        }
    }

    /// A `Remove` record with the given sequence number, stamped with the time now.
    pub fn remove(key: String, sequence: u64) -> (r: KvsCommand)
        ensures
            r.sequence_number == sequence,
            r.version == CURRENT_SCHEMA_VERSION,
            r.command == Some(Command::Remove { key }),
            r.checksum == crc32_of(encode_utf8(key@)),
    {
        let command = Command::Remove { key };
        let checksum = command.calculate_checksum();
        KvsCommand {
            timestamp: now_secs(),
            sequence_number: sequence,
            checksum,
            version: CURRENT_SCHEMA_VERSION,
            command: Some(command),
        }
    }

    /// Whether the record names a command whose payload has the stored checksum.
    pub fn verify_checksum(&self) -> (r: bool)
        ensures
            r == (self.command matches Some(c) && self.checksum == crc32_of(payload(c))),
    {
        match &self.command {
            Some(cmd) => self.checksum == cmd.calculate_checksum(),
            None => false,
        }
    }

    /// The body of the record.
    pub fn encode_to_vec(&self) -> (r: Vec<u8>)
        ensures
            r@ == encode_body(*self),
    {
        let mut buf: Vec<u8> = Vec::new();
        put_opt_field(&mut buf, TAG_TIMESTAMP, self.timestamp);
        put_opt_field(&mut buf, TAG_SEQUENCE, self.sequence_number);
        put_opt_field(&mut buf, TAG_CHECKSUM, self.checksum as u64);
        put_opt_field(&mut buf, TAG_VERSION, self.version as u64);
        match &self.command {
            Some(cmd) => {
                let msg = cmd.encode_message();
                let tag = match cmd {
                    Command::SetValue { .. } => TAG_SET,
                    Command::Remove { .. } => TAG_REMOVE,
                };
                put_bytes_field(&mut buf, tag, msg.as_slice());
            },
            None => {},
        }
        assert(buf@ =~= encode_body(*self));
        buf
    }
}

proof fn lemma_take(data: Seq<u8>, p: int, a: Seq<u8>, b: Seq<u8>)
    requires
        0 <= p <= data.len(),
        data.subrange(p, data.len() as int) == a + b,
    ensures
        p + a.len() <= data.len(),
        data.subrange(p, p + a.len()) == a,
        data.subrange(p + a.len(), data.len() as int) == b,
{
    let ab = a + b;
    assert(data.subrange(p, data.len() as int).len() == ab.len());
    assert(p + a.len() <= data.len());
    assert forall|i: int| 0 <= i < a.len() implies #[trigger] data.subrange(p, p + a.len())[i]
        == ab.subrange(0, a.len() as int)[i] by {
        assert(data.subrange(p, data.len() as int)[i] == data[p + i]);
    }
    assert(data.subrange(p, p + a.len()) =~= ab.subrange(0, a.len() as int));
    assert(data.subrange(p + a.len(), data.len() as int) =~= ab.subrange(
        a.len() as int,
        ab.len() as int,
    ));
    assert(ab.subrange(0, a.len() as int) =~= a);
    assert(ab.subrange(a.len() as int, ab.len() as int) =~= b);
}

proof fn lemma_join(data: Seq<u8>, p: int, q: int, r: int)
    requires
        0 <= p <= q <= r <= data.len(),
    ensures
        data.subrange(p, r) == data.subrange(p, q) + data.subrange(q, r),
{
    assert(data.subrange(p, r) =~= data.subrange(p, q) + data.subrange(q, r));
}

proof fn lemma_field_parts(data: Seq<u8>, p: int, key: u8, w: u64)
    requires
        0 <= p,
        p + field(key, w).len() <= data.len(),
        data.subrange(p, p + field(key, w).len()) == field(key, w),
    ensures
        data[p] == key,
        data.subrange(p + 1, p + 1 + varint_bytes(w).len()) == varint_bytes(w),
{
    let f = field(key, w);
    assert(data.subrange(p, p + f.len())[0] == data[p]);
    assert(data.subrange(p + 1, p + 1 + varint_bytes(w).len()) =~= data.subrange(
        p,
        p + f.len(),
    ).subrange(1, f.len() as int));
    assert(f.subrange(1, f.len() as int) =~= varint_bytes(w));
}

/// Whether `data` holds `pat` at `p`.
fn matches_at(data: &[u8], p: usize, pat: &[u8]) -> (r: bool)
    requires
        p <= data@.len(),
    ensures
        r == (p + pat@.len() <= data@.len() && data@.subrange(p as int, p + pat@.len()) == pat@),
{
    if pat.len() > data.len() - p {
        return false;
    }
    let n = data.len();
    let mut i: usize = 0;
    while i < pat.len()
        invariant
            n == data@.len(),
            i <= pat@.len(),
            p + pat@.len() <= data@.len(),
            forall|j: int| 0 <= j < i ==> data@[p + j] == pat@[j],
        decreases pat@.len() - i,
    {
        if data[p + i] != pat[i] {
            assert(data@.subrange(p as int, p + pat@.len())[i as int] != pat@[i as int]);
            return false;
        }
        i += 1;
    }
    assert(data@.subrange(p as int, p + pat@.len()) =~= pat@);
    true
}

/// Reads the varint field with key byte `key` at `p`, in its canonical form
/// only; returns the value and the position after the field.
fn read_field(data: &[u8], p: usize, key: u8) -> (r: Option<(u64, usize)>)
    requires
        p <= data@.len(),
    ensures
        r matches Some((v, q)) ==> p < q <= data@.len() && data@.subrange(p as int, q as int)
            == field(key, v),
        forall|w: u64|
            #![trigger field(key, w)]
            p + field(key, w).len() <= data@.len() && data@.subrange(
                p as int,
                p + field(key, w).len(),
            ) == field(key, w) ==> r == Some((w, (p + field(key, w).len()) as usize)),
{
    if p >= data.len() || data[p] != key {
        proof {
            assert forall|w: u64|
                p + field(key, w).len() <= data@.len() && data@.subrange(
                    p as int,
                    p + field(key, w).len(),
                ) == field(key, w) implies false by {
                lemma_field_parts(data@, p as int, key, w);
            }
        }
        return None;
    }
    match take_varint(data, p + 1) {
        None => {
            proof {
                assert forall|w: u64|
                    p + field(key, w).len() <= data@.len() && data@.subrange(
                        p as int,
                        p + field(key, w).len(),
                    ) == field(key, w) implies false by {
                    lemma_field_parts(data@, p as int, key, w);
                }
            }
            None
        },
        Some((v, _rest)) => {
            let mut enc: Vec<u8> = Vec::new();
            put_varint(v, &mut enc);
            assert(enc@ =~= varint_bytes(v));
            if matches_at(data, p + 1, enc.as_slice()) {
                let q = p + 1 + enc.len();
                proof {
                    lemma_join(data@, p as int, p + 1, q as int);
                    assert(data@.subrange(p as int, p + 1) =~= seq![key]);
                    assert forall|w: u64|
                        p + field(key, w).len() <= data@.len() && data@.subrange(
                            p as int,
                            p + field(key, w).len(),
                        ) == field(key, w) implies v == w by {
                        lemma_field_parts(data@, p as int, key, w);
                    }
                }
                Some((v, q))
            } else {
                proof {
                    assert forall|w: u64|
                        p + field(key, w).len() <= data@.len() && data@.subrange(
                            p as int,
                            p + field(key, w).len(),
                        ) == field(key, w) implies false by {
                        lemma_field_parts(data@, p as int, key, w);
                    }
                }
                None
            }
        },
    }
}

/// Reads the length-delimited field with key byte `key` at `p`; returns the
/// start and end of its bytes, the end being the position after the field.
fn read_bytes_field(data: &[u8], p: usize, key: u8) -> (r: Option<(usize, usize)>)
    requires
        p <= data@.len(),
    ensures
        r matches Some((s, q)) ==> p < s <= q <= data@.len() && data@.subrange(p as int, q as int)
            == bytes_field(key, data@.subrange(s as int, q as int)),
        forall|b: Seq<u8>|
            #![trigger bytes_field(key, b)]
            p + bytes_field(key, b).len() <= data@.len() && data@.subrange(
                p as int,
                p + bytes_field(key, b).len(),
            ) == bytes_field(key, b) ==> r == Some(
                (
                    (p + field(key, b.len() as u64).len()) as usize,
                    (p + bytes_field(key, b).len()) as usize,
                ),
            ),
{
    match read_field(data, p, key) {
        Some((n, s)) => {
            if n <= (data.len() - s) as u64 {
                let q = s + n as usize;
                proof {
                    lemma_join(data@, p as int, s as int, q as int);
                    assert(bytes_field(key, data@.subrange(s as int, q as int)) =~= field(key, n)
                        + data@.subrange(s as int, q as int));
                    assert forall|b: Seq<u8>|
                        p + bytes_field(key, b).len() <= data@.len() && data@.subrange(
                            p as int,
                            p + bytes_field(key, b).len(),
                        ) == bytes_field(key, b) implies n == b.len() && s == p + field(
                        key,
                        b.len() as u64,
                    ).len() by {
                        let f = field(key, b.len() as u64);
                        assert(bytes_field(key, b) =~= f + b);
                        lemma_join(data@, p as int, p + f.len(), p + f.len() + b.len());
                        assert(data@.subrange(p as int, p + f.len()) =~= data@.subrange(
                            p as int,
                            p + bytes_field(key, b).len(),
                        ).subrange(0, f.len() as int));
                        assert((f + b).subrange(0, f.len() as int) =~= f);
                    }
                }
                Some((s, q))
            } else {
                proof {
                    assert forall|b: Seq<u8>|
                        p + bytes_field(key, b).len() <= data@.len() && data@.subrange(
                            p as int,
                            p + bytes_field(key, b).len(),
                        ) == bytes_field(key, b) implies false by {
                        let f = field(key, b.len() as u64);
                        assert(bytes_field(key, b) =~= f + b);
                        assert(data@.subrange(p as int, p + f.len()) =~= data@.subrange(
                            p as int,
                            p + bytes_field(key, b).len(),
                        ).subrange(0, f.len() as int));
                        assert((f + b).subrange(0, f.len() as int) =~= f);
                    }
                }
                None
            }
        },
        None => {
            proof {
                assert forall|b: Seq<u8>|
                    p + bytes_field(key, b).len() <= data@.len() && data@.subrange(
                        p as int,
                        p + bytes_field(key, b).len(),
                    ) == bytes_field(key, b) implies false by {
                    let f = field(key, b.len() as u64);
                    assert(bytes_field(key, b) =~= f + b);
                    assert(data@.subrange(p as int, p + f.len()) =~= data@.subrange(
                        p as int,
                        p + bytes_field(key, b).len(),
                    ).subrange(0, f.len() as int));
                    assert((f + b).subrange(0, f.len() as int) =~= f);
                }
            }
            None
        },
    }
}

/// The string whose UTF-8 bytes are `data[s..q]`, if they are valid UTF-8.
fn string_at(data: &[u8], s: usize, q: usize) -> (r: Option<String>)
    requires
        s <= q <= data@.len(),
    ensures
        r is Some <==> valid_utf8(data@.subrange(s as int, q as int)),
        r matches Some(t) ==> encode_utf8(t@) == data@.subrange(s as int, q as int),
{
    let mut bytes: Vec<u8> = Vec::new();
    let mut i: usize = s;
    while i < q
        invariant
            s <= i <= q <= data@.len(),
            bytes@ == data@.subrange(s as int, i as int),
        decreases q - i,
    {
        bytes.push(data[i]);
        i += 1;
        assert(bytes@ =~= data@.subrange(s as int, i as int));
    }
    let r = string_from_utf8(bytes);
    proof {
        if r is Some {
            vstd::utf8::decode_utf8_encode_utf8(data@.subrange(s as int, q as int));
        }
    }
    r
}

proof fn lemma_next_byte(data: Seq<u8>, p: int, key: u8, rest: Seq<u8>)
    requires
        0 <= p <= data.len(),
        data.subrange(p, data.len() as int) == rest,
        starts_above(rest, key),
    ensures
        p == data.len() || data[p] > key,
{
    if p < data.len() {
        assert(data.subrange(p, data.len() as int)[0] == data[p]);
    }
}

/// Reads the varint field with key byte `key` at `p`, or its default 0
/// where the next byte is not `key`; a zero that is written out is refused,
/// as it is not the shortest form.
fn read_opt_field(data: &[u8], p: usize, key: u8) -> (r: Option<(u64, usize)>)
    requires
        p <= data@.len(),
    ensures
        r matches Some((v, q)) ==> p <= q <= data@.len() && data@.subrange(p as int, q as int)
            == opt_field(key, v),
        forall|w: u64|
            #![trigger opt_field(key, w)]
            p + opt_field(key, w).len() <= data@.len() && data@.subrange(
                p as int,
                p + opt_field(key, w).len(),
            ) == opt_field(key, w) && (w == 0 ==> p == data@.len() || data@[p as int] != key)
                ==> r == Some((w, (p + opt_field(key, w).len()) as usize)),
{
    if p < data.len() && data[p] == key {
        match read_field(data, p, key) {
            Some((v, q)) => {
                if v != 0 {
                    Some((v, q))
                } else {
                    proof {
                        assert forall|w: u64|
                            p + opt_field(key, w).len() <= data@.len() && data@.subrange(
                                p as int,
                                p + opt_field(key, w).len(),
                            ) == opt_field(key, w) && (w == 0 ==> p == data@.len() || data@[p as int]
                                != key) implies false by {
                            assert(field(key, w) == opt_field(key, w));
                        }
                    }
                    None
                }
            },
            None => {
                proof {
                    assert forall|w: u64|
                        p + opt_field(key, w).len() <= data@.len() && data@.subrange(
                            p as int,
                            p + opt_field(key, w).len(),
                        ) == opt_field(key, w) && (w == 0 ==> p == data@.len() || data@[p as int]
                            != key) implies false by {
                        assert(field(key, w) == opt_field(key, w));
                    }
                }
                None
            },
        }
    } else {
        proof {
            assert(data@.subrange(p as int, p as int) =~= opt_field(key, 0));
            assert forall|w: u64|
                p + opt_field(key, w).len() <= data@.len() && data@.subrange(
                    p as int,
                    p + opt_field(key, w).len(),
                ) == opt_field(key, w) implies w == 0 by {
                if w != 0 {
                    lemma_field_parts(data@, p as int, key, w);
                }
            }
        }
        Some((0, p))
    }
}

/// Reads the length-delimited field with key byte `key` at `p`, or its
/// default, empty, where the next byte is not `key`; returns the start and
/// end of its bytes, the end being the position after the field. An empty
/// field that is written out is refused.
fn read_opt_bytes_field(data: &[u8], p: usize, key: u8) -> (r: Option<(usize, usize)>)
    requires
        p <= data@.len(),
    ensures
        r matches Some((s, q)) ==> p <= s <= q <= data@.len() && data@.subrange(p as int, q as int)
            == opt_bytes_field(key, data@.subrange(s as int, q as int)),
        forall|b: Seq<u8>|
            #![trigger opt_bytes_field(key, b)]
            p + opt_bytes_field(key, b).len() <= data@.len() && data@.subrange(
                p as int,
                p + opt_bytes_field(key, b).len(),
            ) == opt_bytes_field(key, b) && (b.len() == 0 ==> p == data@.len() || data@[p as int]
                != key) ==> r is Some && r->Some_0.1 == p + opt_bytes_field(key, b).len()
                && data@.subrange(r->Some_0.0 as int, r->Some_0.1 as int) == b,
{
    if p < data.len() && data[p] == key {
        match read_bytes_field(data, p, key) {
            Some((s, q)) => {
                if s < q {
                    proof {
                        assert forall|b: Seq<u8>|
                            p + opt_bytes_field(key, b).len() <= data@.len() && data@.subrange(
                                p as int,
                                p + opt_bytes_field(key, b).len(),
                            ) == opt_bytes_field(key, b) && (b.len() == 0 ==> p == data@.len()
                                || data@[p as int] != key) implies q == p + opt_bytes_field(
                            key,
                            b,
                        ).len() && data@.subrange(s as int, q as int) == b by {
                            assert(bytes_field(key, b) == opt_bytes_field(key, b));
                            let f = field(key, b.len() as u64);
                            assert(bytes_field(key, b) =~= f + b);
                            assert(data@.subrange(p as int, p + bytes_field(key, b).len())
                                =~= data@.subrange(p as int, q as int));
                            lemma_join(data@, p as int, s as int, q as int);
                            assert(data@.subrange(s as int, q as int) =~= data@.subrange(
                                p as int,
                                q as int,
                            ).subrange(s - p, q - p));
                            assert((f + b).subrange(f.len() as int, (f + b).len() as int) =~= b);
                        }
                    }
                    Some((s, q))
                } else {
                    proof {
                        assert forall|b: Seq<u8>|
                            p + opt_bytes_field(key, b).len() <= data@.len() && data@.subrange(
                                p as int,
                                p + opt_bytes_field(key, b).len(),
                            ) == opt_bytes_field(key, b) && (b.len() == 0 ==> p == data@.len()
                                || data@[p as int] != key) implies false by {
                            assert(bytes_field(key, b) == opt_bytes_field(key, b));
                        }
                    }
                    None
                }
            },
            None => {
                proof {
                    assert forall|b: Seq<u8>|
                        p + opt_bytes_field(key, b).len() <= data@.len() && data@.subrange(
                            p as int,
                            p + opt_bytes_field(key, b).len(),
                        ) == opt_bytes_field(key, b) && (b.len() == 0 ==> p == data@.len()
                            || data@[p as int] != key) implies false by {
                        assert(bytes_field(key, b) == opt_bytes_field(key, b));
                    }
                }
                None
            },
        }
    } else {
        proof {
            assert(data@.subrange(p as int, p as int) =~= opt_bytes_field(
                key,
                data@.subrange(p as int, p as int),
            ));
            assert forall|b: Seq<u8>|
                p + opt_bytes_field(key, b).len() <= data@.len() && data@.subrange(
                    p as int,
                    p + opt_bytes_field(key, b).len(),
                ) == opt_bytes_field(key, b) implies b.len() == 0 by {
                if b.len() != 0 {
                    assert(data@.subrange(p as int, p + opt_bytes_field(key, b).len())[0] == data@[p as int]);
                }
            }
            assert forall|b: Seq<u8>| b.len() == 0 implies b =~= data@.subrange(p as int, p as int) by {}
        }
        Some((p, p))
    }
}

/// The tag byte of a command's field.
pub open spec fn command_tag(c: Command) -> u8 {
    if c is SetValue {
        TAG_SET
    } else {
        TAG_REMOVE
    }
}

proof fn lemma_starts_above(piece: Seq<u8>, key: u8, rest: Seq<u8>, t: u8)
    requires
        piece.len() == 0 || piece[0] == key,
        starts_above(rest, key),
        t < key,
    ensures
        starts_above(piece + rest, t),
{
    if piece.len() > 0 {
        assert((piece + rest)[0] == piece[0]);
    } else {
        assert(piece + rest =~= rest);
    }
}

proof fn lemma_command_field_starts(c: Option<Command>)
    ensures
        starts_above(command_field(c), TAG_VERSION),
{
    if c is Some {
        assert(command_field(c)[0] == command_tag(c->Some_0));
    }
}

proof fn lemma_message_parts(c: Command)
    ensures
        command_message(c) == opt_bytes_field(TAG_KEY, encode_utf8(command_key_bytes(c)))
            + command_rest(c),
        starts_above(command_rest(c), TAG_KEY),
{
    let r = command_rest(c);
    if r.len() > 0 {
        assert(r[0] == TAG_VALUE);
    }
    if c is Remove {
        assert(command_message(c) =~= opt_bytes_field(TAG_KEY, encode_utf8(command_key_bytes(c)))
            + command_rest(c));
    }
}

/// The key of a command.
pub open spec fn command_key_bytes(c: Command) -> Seq<char> {
    match c {
        Command::SetValue { key, .. } => key@,
        Command::Remove { key } => key@,
    }
}

/// What follows the key in a command's message: the value field of a `Set`.
pub open spec fn command_rest(c: Command) -> Seq<u8> {
    match c {
        Command::SetValue { value, .. } => opt_bytes_field(TAG_VALUE, encode_utf8(value@)),
        Command::Remove { .. } => seq![],
    }
}

/// Reads the command field that fills `data[p..]`.
fn decode_command(data: &[u8], p: usize) -> (r: Option<Command>)
    requires
        p < data@.len(),
    ensures
        r matches Some(c) ==> data@.subrange(p as int, data@.len() as int) == command_field(
            Some(c),
        ),
        (exists|c: Command|
            data@.subrange(p as int, data@.len() as int) == command_field(Some(c))) ==> r is Some,
{
    let ghost d = data@;
    let ghost len = data@.len() as int;
    let ghost good = exists|c: Command| d.subrange(p as int, len) == command_field(Some(c));
    let ghost c0 = choose|c: Command| d.subrange(p as int, len) == command_field(Some(c));
    let ghost msg0 = command_message(c0);
    let ghost head0 = field(command_tag(c0), msg0.len() as u64);
    let ghost kb0 = encode_utf8(command_key_bytes(c0));
    let ghost okey0 = opt_bytes_field(TAG_KEY, kb0);
    let ghost rest0 = command_rest(c0);
    proof {
        if good {
            assert(command_field(Some(c0)) =~= head0 + msg0);
            lemma_take(d, p as int, head0, msg0);
            assert(d.subrange(p as int, len)[0] == d[p as int]);
            lemma_message_parts(c0);
        }
    }
    let tag = data[p];
    if tag != TAG_SET && tag != TAG_REMOVE {
        return None;
    }
    let (s, q) = match read_bytes_field(data, p, tag) {
        Some(x) => x,
        None => {
            return None;
        },
    };
    if q != data.len() {
        return None;
    }
    proof {
        if good {
            lemma_take(d, s as int, okey0, rest0);
            if kb0.len() == 0 {
                assert(okey0.len() == 0);
                lemma_next_byte(d, s as int, TAG_KEY, rest0);
            }
        }
    }
    let (ks, ke) = match read_opt_bytes_field(data, s, TAG_KEY) {
        Some(x) => x,
        None => {
            return None;
        },
    };
    proof {
        if good {
            vstd::utf8::encode_utf8_valid_utf8(command_key_bytes(c0));
        }
    }
    let key = match string_at(data, ks, ke) {
        Some(k) => k,
        None => {
            return None;
        },
    };
    if tag == TAG_REMOVE {
        if ke != data.len() {
            return None;
        }
        let c = Command::Remove { key };
        proof {
            assert(d.subrange(s as int, len) =~= command_message(c));
        }
        return Some(c);
    }
    let ghost vb0 = encode_utf8(c0->SetValue_value@);
    proof {
        if good {
            assert(rest0 =~= rest0 + seq![]);
            lemma_take(d, ke as int, rest0, seq![]);
            if vb0.len() == 0 {
                assert(d.subrange(ke as int, len).len() == 0);
            }
        }
    }
    let (vs, ve) = match read_opt_bytes_field(data, ke, TAG_VALUE) {
        Some(x) => x,
        None => {
            return None;
        },
    };
    if ve != data.len() {
        return None;
    }
    proof {
        if good {
            vstd::utf8::encode_utf8_valid_utf8(c0->SetValue_value@);
        }
    }
    let value = match string_at(data, vs, ve) {
        Some(v) => v,
        None => {
            return None;
        },
    };
    let c = Command::SetValue { key, value };
    proof {
        lemma_join(d, s as int, ke as int, len);
        assert(d.subrange(s as int, len) =~= command_message(c));
    }
    Some(c)
}

impl KvsCommand {
    /// Decodes a record body. Succeeds exactly on the bytes that
    /// `encode_to_vec` writes for some record.
    #[verifier::rlimit(100)]
    pub fn decode(data: &[u8]) -> (r: Result<KvsCommand, KvsError>)
        ensures
            r matches Ok(c) ==> encode_body(c) == data@,
            r matches Err(e) ==> e is Deserialize,
            (exists|c: KvsCommand| encode_body(c) == data@) ==> r is Ok,
    {
        let ghost d = data@;
        let ghost len = data@.len() as int;
        let ghost good = exists|c: KvsCommand| encode_body(c) == d;
        let ghost c0 = choose|c: KvsCommand| encode_body(c) == d;
        let ghost f1 = opt_field(TAG_TIMESTAMP, c0.timestamp);
        let ghost f2 = opt_field(TAG_SEQUENCE, c0.sequence_number);
        let ghost f3 = opt_field(TAG_CHECKSUM, c0.checksum as u64);
        let ghost f4 = opt_field(TAG_VERSION, c0.version as u64);
        let ghost cf = command_field(c0.command);
        proof {
            if good {
                assert(d.subrange(0, len) =~= d);
                assert(encode_body(c0) =~= f1 + (f2 + (f3 + (f4 + cf))));
                lemma_command_field_starts(c0.command);
                lemma_starts_above(f4, TAG_VERSION, cf, TAG_CHECKSUM);
                lemma_starts_above(f3, TAG_CHECKSUM, f4 + cf, TAG_SEQUENCE);
                lemma_starts_above(f2, TAG_SEQUENCE, f3 + (f4 + cf), TAG_TIMESTAMP);
                lemma_take(d, 0, f1, f2 + (f3 + (f4 + cf)));
                if c0.timestamp == 0 {
                    lemma_next_byte(d, 0, TAG_TIMESTAMP, f2 + (f3 + (f4 + cf)));
                }
            }
        }
        let (timestamp, after_ts) = match read_opt_field(data, 0, TAG_TIMESTAMP) {
            Some(x) => x,
            None => {
                return Err(KvsError::Deserialize);
            },
        };
        proof {
            if good {
                lemma_take(d, after_ts as int, f2, f3 + (f4 + cf));
                if c0.sequence_number == 0 {
                    lemma_next_byte(d, after_ts as int, TAG_SEQUENCE, f3 + (f4 + cf));
                }
            }
        }
        let (sequence_number, after_seq) = match read_opt_field(data, after_ts, TAG_SEQUENCE) {
            Some(x) => x,
            None => {
                return Err(KvsError::Deserialize);
            },
        };
        proof {
            if good {
                lemma_take(d, after_seq as int, f3, f4 + cf);
                if c0.checksum == 0 {
                    lemma_next_byte(d, after_seq as int, TAG_CHECKSUM, f4 + cf);
                }
            }
        }
        let (checksum, after_sum) = match read_opt_field(data, after_seq, TAG_CHECKSUM) {
            Some(x) => x,
            None => {
                return Err(KvsError::Deserialize);
            },
        };
        if checksum > u32::MAX as u64 {
            return Err(KvsError::Deserialize);
        }
        proof {
            if good {
                lemma_take(d, after_sum as int, f4, cf);
                if c0.version == 0 {
                    lemma_next_byte(d, after_sum as int, TAG_VERSION, cf);
                }
            }
        }
        let (version, after_ver) = match read_opt_field(data, after_sum, TAG_VERSION) {
            Some(x) => x,
            None => {
                return Err(KvsError::Deserialize);
            },
        };
        if version > u32::MAX as u64 {
            return Err(KvsError::Deserialize);
        }
        let command = if after_ver == data.len() {
            None
        } else {
            proof {
                if good {
                    assert(c0.command is Some);
                }
            }
            match decode_command(data, after_ver) {
                Some(c) => Some(c),
                None => {
                    return Err(KvsError::Deserialize);
                },
            }
        };
        let r = KvsCommand {
            timestamp,
            sequence_number,
            checksum: checksum as u32,
            version: version as u32,
            command,
        };
        proof {
            lemma_join(d, 0, after_ts as int, after_seq as int);
            lemma_join(d, 0, after_seq as int, after_sum as int);
            lemma_join(d, 0, after_sum as int, after_ver as int);
            lemma_join(d, 0, after_ver as int, len);
            assert(d.subrange(0, len) =~= d);
            if after_ver == data.len() {
                assert(d.subrange(after_ver as int, len) =~= command_field(r.command));
            }
            assert(encode_body(r) =~= d);
        }
        Ok(r)
    }
}

proof fn lemma_drop_first(x: Seq<u8>, y: Seq<u8>, a: Seq<u8>, b: Seq<u8>)
    requires
        x.len() >= 1,
        y.len() >= 1,
        x + a == y + b,
    ensures
        x[0] == y[0],
        x.subrange(1, x.len() as int) + a == y.subrange(1, y.len() as int) + b,
{
    assert((x + a)[0] == x[0]);
    assert((y + b)[0] == y[0]);
    assert(x.subrange(1, x.len() as int) + a =~= (x + a).subrange(1, (x + a).len() as int));
    assert(y.subrange(1, y.len() as int) + b =~= (y + b).subrange(1, (y + b).len() as int));
}

proof fn lemma_varint_prefix_free(x: u64, y: u64, a: Seq<u8>, b: Seq<u8>)
    requires
        varint_bytes(x) + a == varint_bytes(y) + b,
    ensures
        x == y,
        a == b,
    decreases x,
{
    let vx = varint_bytes(x);
    let vy = varint_bytes(y);
    lemma_drop_first(vx, vy, a, b);
    if x < 128 {
        if y >= 128 {
            assert(vy[0] == (y % 128 + 128) as u8);
            assert(false);
        }
        assert(vx.subrange(1, vx.len() as int) =~= Seq::<u8>::empty());
        assert(vy.subrange(1, vy.len() as int) =~= Seq::<u8>::empty());
        assert(a =~= Seq::<u8>::empty() + a);
        assert(b =~= Seq::<u8>::empty() + b);
    } else {
        if y < 128 {
            assert(vx[0] == (x % 128 + 128) as u8);
            assert(false);
        }
        assert(vx.subrange(1, vx.len() as int) =~= varint_bytes(x / 128));
        assert(vy.subrange(1, vy.len() as int) =~= varint_bytes(y / 128));
        lemma_varint_prefix_free(x / 128, y / 128, a, b);
        assert(x % 128 == y % 128);
    }
}

proof fn lemma_field_prefix_free(k: u8, x: u64, y: u64, a: Seq<u8>, b: Seq<u8>)
    requires
        field(k, x) + a == field(k, y) + b,
    ensures
        x == y,
        a == b,
{
    lemma_drop_first(field(k, x), field(k, y), a, b);
    assert(field(k, x).subrange(1, field(k, x).len() as int) =~= varint_bytes(x));
    assert(field(k, y).subrange(1, field(k, y).len() as int) =~= varint_bytes(y));
    lemma_varint_prefix_free(x, y, a, b);
}

proof fn lemma_bytes_field_prefix_free(k: u8, s: Seq<u8>, t: Seq<u8>, a: Seq<u8>, b: Seq<u8>)
    requires
        bytes_field(k, s) + a == bytes_field(k, t) + b,
        s.len() <= u64::MAX,
        t.len() <= u64::MAX,
    ensures
        s == t,
        a == b,
{
    assert(bytes_field(k, s) + a =~= field(k, s.len() as u64) + (s + a));
    assert(bytes_field(k, t) + b =~= field(k, t.len() as u64) + (t + b));
    lemma_field_prefix_free(k, s.len() as u64, t.len() as u64, s + a, t + b);
    assert(s =~= (s + a).subrange(0, s.len() as int));
    assert(t =~= (t + b).subrange(0, t.len() as int));
    assert(a =~= (s + a).subrange(s.len() as int, (s + a).len() as int));
    assert(b =~= (t + b).subrange(t.len() as int, (t + b).len() as int));
}

/// What a command says, over views: whether it is a `Set`, its key, and
/// for a `Set` its value.
pub open spec fn command_view(c: Option<Command>) -> Option<(bool, Seq<char>, Seq<char>)> {
    match c {
        None => None,
        Some(Command::SetValue { key, value }) => Some((true, key@, value@)),
        Some(Command::Remove { key }) => Some((false, key@, seq![])),
    }
}

proof fn lemma_utf8_injective(s: Seq<char>, t: Seq<char>)
    requires
        encode_utf8(s) == encode_utf8(t),
    ensures
        s == t,
{
    vstd::utf8::encode_utf8_decode_utf8(s);
    vstd::utf8::encode_utf8_decode_utf8(t);
}

proof fn lemma_opt_field_prefix_free(k: u8, x: u64, y: u64, a: Seq<u8>, b: Seq<u8>)
    requires
        opt_field(k, x) + a == opt_field(k, y) + b,
        starts_above(a, k),
        starts_above(b, k),
    ensures
        x == y,
        a == b,
{
    if x != 0 && y != 0 {
        lemma_field_prefix_free(k, x, y, a, b);
    } else if x == 0 && y != 0 {
        assert(opt_field(k, x) + a =~= a);
        assert((field(k, y) + b)[0] == k);
    } else if x != 0 && y == 0 {
        assert(opt_field(k, y) + b =~= b);
        assert((field(k, x) + a)[0] == k);
    } else {
        assert(opt_field(k, x) + a =~= a);
        assert(opt_field(k, y) + b =~= b);
    }
}

proof fn lemma_opt_bytes_prefix_free(k: u8, s: Seq<u8>, t: Seq<u8>, a: Seq<u8>, b: Seq<u8>)
    requires
        opt_bytes_field(k, s) + a == opt_bytes_field(k, t) + b,
        starts_above(a, k),
        starts_above(b, k),
        s.len() <= u64::MAX,
        t.len() <= u64::MAX,
    ensures
        s == t,
        a == b,
{
    if s.len() != 0 && t.len() != 0 {
        lemma_bytes_field_prefix_free(k, s, t, a, b);
    } else if s.len() == 0 && t.len() != 0 {
        assert(opt_bytes_field(k, s) + a =~= a);
        assert((bytes_field(k, t) + b)[0] == k);
    } else if s.len() != 0 && t.len() == 0 {
        assert(opt_bytes_field(k, t) + b =~= b);
        assert((bytes_field(k, s) + a)[0] == k);
    } else {
        assert(s =~= t);
        assert(opt_bytes_field(k, s) + a =~= a);
        assert(opt_bytes_field(k, t) + b =~= b);
    }
}

proof fn lemma_command_field_injective(c: Option<Command>, d: Option<Command>)
    requires
        command_field(c) == command_field(d),
        command_field(c).len() <= u64::MAX,
    ensures
        command_view(c) == command_view(d),
{
    if c is None || d is None {
        if c is Some {
            assert(command_field(c).len() > 0);
        }
        if d is Some {
            assert(command_field(d).len() > 0);
        }
        return;
    }
    let cc = c->Some_0;
    let dc = d->Some_0;
    let mc = command_message(cc);
    let md = command_message(dc);
    assert(command_field(c) + Seq::<u8>::empty() =~= command_field(c));
    assert(command_field(d) + Seq::<u8>::empty() =~= command_field(d));
    assert(command_field(c)[0] == command_tag(cc));
    assert(command_field(d)[0] == command_tag(dc));
    assert(command_tag(cc) == command_tag(dc));
    lemma_bytes_field_prefix_free(command_tag(cc), mc, md, seq![], seq![]);
    lemma_message_parts(cc);
    lemma_message_parts(dc);
    let kc = encode_utf8(command_key_bytes(cc));
    let kd = encode_utf8(command_key_bytes(dc));
    lemma_opt_bytes_prefix_free(TAG_KEY, kc, kd, command_rest(cc), command_rest(dc));
    lemma_utf8_injective(command_key_bytes(cc), command_key_bytes(dc));
    if cc is SetValue {
        let vc = encode_utf8(cc->SetValue_value@);
        let vd = encode_utf8(dc->SetValue_value@);
        assert(command_rest(cc) + Seq::<u8>::empty() =~= command_rest(cc));
        assert(command_rest(dc) + Seq::<u8>::empty() =~= command_rest(dc));
        lemma_opt_bytes_prefix_free(TAG_VALUE, vc, vd, seq![], seq![]);
        lemma_utf8_injective(cc->SetValue_value@, dc->SetValue_value@);
    }
}

/// A body determines its record: two records with the same body agree in
/// every header field and in what their commands say. With `decode`, which
/// succeeds exactly on bodies, decoding a body gives back the record that
/// was encoded.
#[verifier::rlimit(40)]
pub proof fn lemma_encode_body_injective(a: KvsCommand, b: KvsCommand)
    requires
        encode_body(a) == encode_body(b),
        encode_body(a).len() <= u64::MAX,
    ensures
        a.timestamp == b.timestamp,
        a.sequence_number == b.sequence_number,
        a.checksum == b.checksum,
        a.version == b.version,
        command_view(a.command) == command_view(b.command),
{
    let ca = command_field(a.command);
    let cb = command_field(b.command);
    let f4a = opt_field(TAG_VERSION, a.version as u64);
    let f4b = opt_field(TAG_VERSION, b.version as u64);
    let f3a = opt_field(TAG_CHECKSUM, a.checksum as u64);
    let f3b = opt_field(TAG_CHECKSUM, b.checksum as u64);
    let f2a = opt_field(TAG_SEQUENCE, a.sequence_number);
    let f2b = opt_field(TAG_SEQUENCE, b.sequence_number);
    lemma_command_field_starts(a.command);
    lemma_command_field_starts(b.command);
    lemma_starts_above(f4a, TAG_VERSION, ca, TAG_CHECKSUM);
    lemma_starts_above(f4b, TAG_VERSION, cb, TAG_CHECKSUM);
    lemma_starts_above(f3a, TAG_CHECKSUM, f4a + ca, TAG_SEQUENCE);
    lemma_starts_above(f3b, TAG_CHECKSUM, f4b + cb, TAG_SEQUENCE);
    lemma_starts_above(f2a, TAG_SEQUENCE, f3a + (f4a + ca), TAG_TIMESTAMP);
    lemma_starts_above(f2b, TAG_SEQUENCE, f3b + (f4b + cb), TAG_TIMESTAMP);
    assert(encode_body(a) =~= opt_field(TAG_TIMESTAMP, a.timestamp) + (f2a + (f3a + (f4a + ca))));
    assert(encode_body(b) =~= opt_field(TAG_TIMESTAMP, b.timestamp) + (f2b + (f3b + (f4b + cb))));
    lemma_opt_field_prefix_free(
        TAG_TIMESTAMP,
        a.timestamp,
        b.timestamp,
        f2a + (f3a + (f4a + ca)),
        f2b + (f3b + (f4b + cb)),
    );
    lemma_opt_field_prefix_free(
        TAG_SEQUENCE,
        a.sequence_number,
        b.sequence_number,
        f3a + (f4a + ca),
        f3b + (f4b + cb),
    );
    lemma_opt_field_prefix_free(TAG_CHECKSUM, a.checksum as u64, b.checksum as u64, f4a + ca, f4b + cb);
    lemma_opt_field_prefix_free(TAG_VERSION, a.version as u64, b.version as u64, ca, cb);
    assert(ca.len() <= encode_body(a).len());
    lemma_command_field_injective(a.command, b.command);
}

} // verus!
