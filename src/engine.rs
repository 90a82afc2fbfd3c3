//! The store's decisions: replaying a log into the index, the bookkeeping of
//! appends and removals, when and how to compact, and reading a value back.
//! The caller owns the files: it appends the bytes handed out here, reads
//! the bytes asked for, and reports where they went.
use vstd::prelude::*;
use vstd::utf8::encode_utf8;
use crate::codec::{command_view, lemma_encode_body_injective, crc32_of, encode_body, payload, Command, KvsCommand, CURRENT_SCHEMA_VERSION};
use crate::error::KvsError;
use crate::frame::{frame, framed, le32_bytes, read_len_prefix};
use crate::index::{key_lt, lens_sum, CommandPos, KvIndex};

verus! {

/// Stale bytes beyond which the store compacts.
pub const COMPACTION_THRESHOLD: u64 = 1024 * 1024;

/// Relies on std::io::Error::from: the error of a read that ended early.
#[verifier::external_body]
fn unexpected_eof() -> (r: std::io::Error) {
    std::io::Error::from(std::io::ErrorKind::UnexpectedEof)
}

/// Relies on std::io::Error::new: the error of a record too large to frame.
#[verifier::external_body]
fn oversized() -> (r: std::io::Error) {
    std::io::Error::new(std::io::ErrorKind::InvalidInput, "record too large")
}

/// `a + b`, or `u64::MAX` where that does not fit.
pub open spec fn sat_add(a: u64, b: u64) -> u64 {
    if a + b > u64::MAX {
        u64::MAX
    } else {
        (a + b) as u64
    }
}

/// The record names a command, and the command's payload has the record's
/// checksum.
pub open spec fn checksum_holds(c: KvsCommand) -> bool {
    &&& c.command is Some
    &&& c.checksum == crc32_of(payload(c.command->Some_0))
}

/// A record that replay accepts: its checksum holds and its body can be framed.
pub open spec fn valid_record(c: KvsCommand) -> bool {
    &&& checksum_holds(c)
    &&& encode_body(c).len() <= u32::MAX
}

/// The bytes of a log holding `recs`, in order.
pub open spec fn log_bytes(recs: Seq<KvsCommand>) -> Seq<u8>
    decreases recs.len(),
{
    if recs.len() == 0 {
        seq![]
    } else {
        log_bytes(recs.drop_last()) + framed(encode_body(recs.last()))
    }
}

/// The key that a command is about.
pub open spec fn command_key(c: Command) -> Seq<char> {
    match c {
        Command::SetValue { key, .. } => key@,
        Command::Remove { key } => key@,
    }
}

/// The index, the stale byte count and the highest sequence number after
/// replaying `recs`, as log `gen`, over `m`, `stale` and `high`.
pub open spec fn replay(
    m: Map<Seq<char>, CommandPos>,
    stale: u64,
    high: u64,
    gen: u64,
    recs: Seq<KvsCommand>,
) -> (Map<Seq<char>, CommandPos>, u64, u64)
    decreases recs.len(),
{
    if recs.len() == 0 {
        (m, stale, high)
    } else {
        let (m0, s0, h0) = replay(m, stale, high, gen, recs.drop_last());
        let c = recs.last();
        let h = if c.sequence_number > h0 {
            c.sequence_number
        } else {
            h0
        };
        let (m1, s1) = replay_step(
            m0,
            s0,
            gen,
            log_bytes(recs.drop_last()).len() as u64,
            framed(encode_body(c)).len() as u64,
            c.command->Some_0 is SetValue,
            command_key(c.command->Some_0),
        );
        (m1, s1, h)
    }
}

/// The index and stale byte count after a record of key `k`, framed at
/// `pos` with length `len` in log `gen`: a `Set` binds the key there,
/// counting the record it replaces as stale; a `Remove` unbinds the key,
/// counting the record it removes and itself as stale.
pub open spec fn replay_step(
    m: Map<Seq<char>, CommandPos>,
    stale: u64,
    gen: u64,
    pos: u64,
    len: u64,
    is_set: bool,
    k: Seq<char>,
) -> (Map<Seq<char>, CommandPos>, u64) {
    let prev = if m.contains_key(k) {
        m[k].len
    } else {
        0
    };
    if is_set {
        (m.insert(k, CommandPos { gen, pos, len }), sat_add(stale, prev))
    } else {
        (m.remove(k), sat_add(sat_add(stale, prev), len))
    }
}

fn apply_record(index: &mut KvIndex, stale: u64, gen: u64, pos: u64, len: u64, c: Command) -> (r:
    u64)
    requires
        old(index).wf(),
    ensures
        final(index).wf(),
        (final(index)@, r) == replay_step(old(index)@, stale, gen, pos, len, c is SetValue, command_key(c)),
{
    match c {
        Command::SetValue { key, .. } => {
            match index.insert(key, CommandPos { gen, pos, len }) {
                Some(prev) => stale.saturating_add(prev.len),
                None => stale,
            }
        },
        Command::Remove { key } => {
            let s = match index.remove(key.as_str()) {
                Some(prev) => stale.saturating_add(prev.len),
                None => stale,
            };
            s.saturating_add(len)
        },
    }
}

fn copy_range(data: &[u8], start: usize, end: usize) -> (r: Vec<u8>)
    requires
        start <= end <= data@.len(),
    ensures
        r@ == data@.subrange(start as int, end as int),
{
    let mut body: Vec<u8> = Vec::new();
    let mut i: usize = start;
    while i < end
        invariant
            start <= i <= end <= data@.len(),
            body@ == data@.subrange(start as int, i as int),
        decreases end - i,
    {
        body.push(data[i]);
        i += 1;
        assert(body@ =~= data@.subrange(start as int, i as int));
    }
    body
}

proof fn lemma_log_bytes_push(recs: Seq<KvsCommand>, c: KvsCommand)
    ensures
        log_bytes(recs.push(c)) == log_bytes(recs) + framed(encode_body(c)),
        recs.push(c).drop_last() == recs,
{
    assert(recs.push(c).drop_last() =~= recs);
}

/// The length that the 4 bytes at `p` hold.
pub open spec fn stored_len(data: Seq<u8>, p: int) -> u32 {
    choose|n: u32| le32_bytes(n) == data.subrange(p, p + 4)
}

/// The body that the prefix at `p` announces.
pub open spec fn body_at(data: Seq<u8>, p: int) -> Seq<u8> {
    data.subrange(p + 4, p + 4 + stored_len(data, p))
}

/// `e` is the error for the framed record at `p`: `IoError` where its body
/// runs past the end of `data`, else `Deserialize` where the body is no
/// record's body, else `CorruptedData` where the record it encodes names no
/// command or fails its checksum.
pub open spec fn record_fault(data: Seq<u8>, p: int, e: KvsError) -> bool {
    if p + 4 + stored_len(data, p) > data.len() {
        e is IoError
    } else if !exists|c: KvsCommand| encode_body(c) == body_at(data, p) {
        e is Deserialize
    } else {
        e is CorruptedData && exists|c: KvsCommand|
            encode_body(c) == body_at(data, p) && !checksum_holds(c)
    }
}

/// Reads the framed record at `p`, where at least 4 bytes are left;
/// returns it with the position after it. Fails where the body runs past
/// the end (`IoError`), does not decode (`Deserialize`), or names no command
/// or fails its checksum (`CorruptedData`).
fn read_record(data: &[u8], p: usize) -> (r: Result<(KvsCommand, usize), KvsError>)
    requires
        p + 4 <= data@.len(),
    ensures
        r matches Ok((c, end)) ==> p < end <= data@.len() && data@.subrange(p as int, end as int)
            == framed(encode_body(c)) && valid_record(c),
        r matches Err(e) ==> record_fault(data@, p as int, e),
        forall|c: KvsCommand, rest: Seq<u8>|
            valid_record(c) && data@.subrange(p as int, data@.len() as int) == #[trigger] (framed(
                encode_body(c),
            ) + rest) ==> r is Ok && r->Ok_0.1 == p + framed(encode_body(c)).len(),
{
    let n = data.len();
    let ghost good = exists|c: KvsCommand, rest: Seq<u8>|
        valid_record(c) && data@.subrange(p as int, n as int) == framed(encode_body(c)) + rest;
    let ghost (c0, rest0) = choose|c: KvsCommand, rest: Seq<u8>|
        valid_record(c) && data@.subrange(p as int, n as int) == framed(encode_body(c)) + rest;
    let ghost body0 = encode_body(c0);
    proof {
        if good {
            assert(data@.subrange(p as int, n as int) =~= le32_bytes(body0.len() as u32) + (body0
                + rest0));
            lemma_take_front(data@, p as int, le32_bytes(body0.len() as u32), body0 + rest0);
            lemma_take_front(data@, p + 4, body0, rest0);
        }
    }
    let len = read_len_prefix(data, p);
    assert(stored_len(data@, p as int) == len);
    let start = p + 4;
    if len as usize > n - start {
        return Err(KvsError::IoError(unexpected_eof()));
    }
    let end = start + len as usize;
    let body = copy_range(data, start, end);
    assert(body@ == body_at(data@, p as int));
    let cmd = match KvsCommand::decode(body.as_slice()) {
        Ok(c) => c,
        Err(_) => {
            return Err(KvsError::Deserialize);
        },
    };
    proof {
        if good {
            lemma_encode_body_injective(cmd, c0);
            lemma_payload_of_view(cmd.command->Some_0, c0.command->Some_0);
        }
    }
    if !cmd.verify_checksum() {
        assert(encode_body(cmd) == body_at(data@, p as int) && !checksum_holds(cmd));
        return Err(KvsError::CorruptedData);
    }
    proof {
        assert(framed(encode_body(cmd)) =~= data@.subrange(p as int, end as int));
        assert forall|c: KvsCommand, rest: Seq<u8>|
            valid_record(c) && data@.subrange(p as int, data@.len() as int) == #[trigger] (framed(
                encode_body(c),
            ) + rest) implies end == p + framed(encode_body(c)).len() by {
            let b = encode_body(c);
            assert(data@.subrange(p as int, n as int) =~= le32_bytes(b.len() as u32) + (b + rest));
            lemma_take_front(data@, p as int, le32_bytes(b.len() as u32), b + rest);
        }
    }
    Ok((cmd, end))
}

/// Replay of `data` fails with `e`: the records before some offset are
/// valid, and the framed record there, with at least 4 bytes left, has the
/// fault that `e` names (see `record_fault`).
pub open spec fn fails_at(data: Seq<u8>, e: KvsError) -> bool {
    exists|recs: Seq<KvsCommand>, p: int|
        {
            &&& forall|i: int| 0 <= i < recs.len() ==> valid_record(#[trigger] recs[i])
            &&& 0 <= p && data.len() - p >= 4
            &&& log_bytes(recs) == data.subrange(0, p)
            &&& record_fault(data, p, e)
        }
}

/// `data` is `recs`, each framed, followed by `tail`, shorter than a prefix.
pub open spec fn log_of(recs: Seq<KvsCommand>, tail: Seq<u8>, data: Seq<u8>) -> bool {
    &&& forall|i: int| 0 <= i < recs.len() ==> valid_record(#[trigger] recs[i])
    &&& data == log_bytes(recs) + tail
    &&& tail.len() < 4
}

/// `data` is a log of valid records, possibly followed by fewer than 4 bytes.
pub open spec fn is_log(data: Seq<u8>) -> bool {
    exists|recs: Seq<KvsCommand>, tail: Seq<u8>| log_of(recs, tail, data)
}

proof fn lemma_log_bytes_front(recs: Seq<KvsCommand>)
    requires
        recs.len() > 0,
    ensures
        log_bytes(recs) == framed(encode_body(recs[0])) + log_bytes(recs.skip(1)),
    decreases recs.len(),
{
    let prev = recs.drop_last();
    if recs.len() == 1 {
        assert(prev =~= Seq::<KvsCommand>::empty());
        assert(recs.skip(1) =~= Seq::<KvsCommand>::empty());
        assert(log_bytes(recs) =~= framed(encode_body(recs[0])) + log_bytes(recs.skip(1)));
    } else {
        lemma_log_bytes_front(prev);
        assert(recs.skip(1).drop_last() =~= prev.skip(1));
        assert(recs.skip(1).last() == recs.last());
        assert(prev[0] == recs[0]);
        assert(log_bytes(recs) =~= framed(encode_body(recs[0])) + log_bytes(recs.skip(1)));
    }
}

proof fn lemma_log_next(data: Seq<u8>, p: int, recs: Seq<KvsCommand>, tail: Seq<u8>, j: int)
    requires
        log_of(recs, tail, data),
        0 <= p <= data.len(),
        data.len() - p >= 4,
        0 <= j <= recs.len(),
        data.subrange(p, data.len() as int) == log_bytes(recs.skip(j)) + tail,
    ensures
        j < recs.len(),
        valid_record(recs[j]),
        data.subrange(p, data.len() as int) == framed(encode_body(recs[j])) + (log_bytes(
            recs.skip(j + 1),
        ) + tail),
{
    if j == recs.len() {
        assert(recs.skip(j) =~= Seq::<KvsCommand>::empty());
        assert(false);
    }
    lemma_log_bytes_front(recs.skip(j));
    assert(recs.skip(j).skip(1) =~= recs.skip(j + 1));
    assert(recs.skip(j)[0] == recs[j]);
    assert(data.subrange(p, data.len() as int) =~= framed(encode_body(recs[j])) + (log_bytes(
        recs.skip(j + 1),
    ) + tail));
}

proof fn lemma_take_front(data: Seq<u8>, p: int, a: Seq<u8>, b: Seq<u8>)
    requires
        0 <= p <= data.len(),
        data.subrange(p, data.len() as int) == a + b,
    ensures
        p + a.len() <= data.len(),
        data.subrange(p, p + a.len()) == a,
        data.subrange(p + a.len(), data.len() as int) == b,
{
    let ab = a + b;
    assert(data.subrange(p, data.len() as int).len() == ab.len());
    assert forall|i: int| 0 <= i < a.len() implies #[trigger] data.subrange(p, p + a.len())[i]
        == a[i] by {
        assert(data.subrange(p, data.len() as int)[i] == data[p + i]);
        assert(ab[i] == a[i]);
    }
    assert(data.subrange(p, p + a.len()) =~= a);
    assert forall|i: int| 0 <= i < b.len() implies #[trigger] data.subrange(
        p + a.len(),
        data.len() as int,
    )[i] == b[i] by {
        assert(data.subrange(p, data.len() as int)[a.len() + i] == data[p + a.len() + i]);
        assert(ab[a.len() + i] == b[i]);
    }
    assert(data.subrange(p + a.len(), data.len() as int) =~= b);
}

proof fn lemma_payload_of_view(a: Command, b: Command)
    requires
        command_view(Some(a)) == command_view(Some(b)),
    ensures
        payload(a) == payload(b),
{
}

/// Replays the log `data` of generation `gen` into `index`, from offset 0.
/// A tail of fewer than 4 bytes ends the log. Returns the stale bytes found
/// and the highest sequence number seen (0 for none).
#[verifier::rlimit(40)]
pub fn load_v2(gen: u64, data: &[u8], index: &mut KvIndex) -> (r: Result<(u64, u64), KvsError>)
    requires
        old(index).wf(),
    ensures
        final(index).wf(),
        r matches Ok((stale, high)) ==> exists|recs: Seq<KvsCommand>|
            {
                &&& forall|i: int| 0 <= i < recs.len() ==> valid_record(#[trigger] recs[i])
                &&& log_bytes(recs) == data@.subrange(0, log_bytes(recs).len() as int)
                &&& data@.len() - log_bytes(recs).len() < 4
                &&& replay(old(index)@, 0, 0, gen, recs) == (final(index)@, stale, high)
            },
        r matches Err(e) ==> fails_at(data@, e),
        is_log(data@) ==> r is Ok,
{
    let n = data.len();
    let mut p: usize = 0;
    let mut stale: u64 = 0;
    let mut high: u64 = 0;
    let ghost m0 = index@;
    let ghost mut recs: Seq<KvsCommand> = seq![];
    let ghost good = is_log(data@);
    let ghost (recs0, tail0) = choose|recs: Seq<KvsCommand>, tail: Seq<u8>| log_of(recs, tail, data@);
    let ghost mut j: int = 0;
    proof {
        if good {
            assert(recs0.skip(0) =~= recs0);
            assert(data@.subrange(0, n as int) =~= data@);
        }
    }
    while n - p >= 4
        invariant
            n == data@.len(),
            p <= n,
            good == is_log(data@),
            good ==> log_of(recs0, tail0, data@),
            good ==> 0 <= j <= recs0.len() && data@.subrange(p as int, n as int) == log_bytes(
                recs0.skip(j),
            ) + tail0,
            index.wf(),
            forall|i: int| 0 <= i < recs.len() ==> valid_record(#[trigger] recs[i]),
            log_bytes(recs) == data@.subrange(0, p as int),
            replay(m0, 0, 0, gen, recs) == (index@, stale, high),
        decreases n - p,
    {
        let ghost rest0 = log_bytes(recs0.skip(j + 1)) + tail0;
        proof {
            if good {
                lemma_log_next(data@, p as int, recs0, tail0, j);
            }
        }
        let rr = read_record(data, p);
        let (cmd, end) = match rr {
            Ok(x) => x,
            Err(e) => {
                proof {
                    if good {
                        let f = framed(encode_body(recs0[j])) + rest0;
                        assert(valid_record(recs0[j]));
                        assert(data@.subrange(p as int, data@.len() as int) == f);
                    }
                    assert(log_bytes(recs) == data@.subrange(0, p as int) && record_fault(
                        data@,
                        p as int,
                        e,
                    ));
                }
                return Err(e);
            },
        };
        let ghost c = cmd;
        proof {
            if good {
                lemma_take_front(data@, p as int, framed(encode_body(recs0[j])), rest0);
                j = j + 1;
            }
            assert(data@.subrange(0, end as int) =~= data@.subrange(0, p as int)
                + data@.subrange(p as int, end as int));
            lemma_log_bytes_push(recs, c);
            recs = recs.push(c);
        }
        if cmd.sequence_number > high {
            high = cmd.sequence_number;
        }
        match cmd.command {
            Some(command) => {
                stale = apply_record(index, stale, gen, p as u64, (end - p) as u64, command);
            },
            None => {
                // read_record returns valid records only, which name a command
                proof {
                    assert(false);
                }
                return Err(KvsError::CorruptedData);
            },
        }
        p = end;
    }
    Ok((stale, high))
}

/// A `Set` record of `key` and `value` with sequence number `seq`, as
/// `KvsCommand::set` makes it.
pub open spec fn is_set_record(c: KvsCommand, key: Seq<char>, value: Seq<char>, seq: u64) -> bool {
    &&& c.sequence_number == seq
    &&& c.version == CURRENT_SCHEMA_VERSION
    &&& c.command matches Some(Command::SetValue { key: k, value: v }) && k@ == key && v@ == value
    &&& c.checksum == crc32_of(encode_utf8(key) + encode_utf8(value))
}

/// A `Remove` record of `key` with sequence number `seq`, as
/// `KvsCommand::remove` makes it.
pub open spec fn is_remove_record(c: KvsCommand, key: Seq<char>, seq: u64) -> bool {
    &&& c.sequence_number == seq
    &&& c.version == CURRENT_SCHEMA_VERSION
    &&& c.command matches Some(Command::Remove { key: k }) && k@ == key
    &&& c.checksum == crc32_of(encode_utf8(key))
}

/// Where compaction copies the live records: record `i` of log
/// `compaction_gen` is a copy of the framed record at `copies[i]`.
pub struct Compaction {
    pub compaction_gen: u64,
    pub copies: Vec<CommandPos>,
}

/// The in-memory state of an open store.
pub struct Engine {
    index: KvIndex,
    current_gen: u64,
    uncompacted: u64,
    current_sequence: u64,
}

impl Engine {
    /// The index keeps its invariant.
    pub closed spec fn wf(&self) -> bool {
        self.index.wf()
    }

    /// The live keys and where their latest `Set` records lie.
    pub closed spec fn index_map(&self) -> Map<Seq<char>, CommandPos> {
        self.index@
    }

    /// The generation that appends go to.
    pub closed spec fn gen(&self) -> u64 {
        self.current_gen
    }

    /// The stale bytes counted since the last compaction.
    pub closed spec fn stale(&self) -> u64 {
        self.uncompacted
    }

    /// The last sequence number handed out or seen.
    pub closed spec fn sequence(&self) -> u64 {
        self.current_sequence
    }

    /// The walk order of the live keys.
    pub closed spec fn key_order(&self) -> Seq<Seq<char>> {
        self.index.key_order()
    }

    /// The positions of the live keys, in walk order.
    pub closed spec fn live_positions(&self) -> Seq<CommandPos> {
        self.index.positions()
    }

    /// A store with no records, before any log is replayed.
    pub fn new() -> (r: Engine)
        ensures
            r.wf(),
            r.index_map() == Map::<Seq<char>, CommandPos>::empty(),
            r.gen() == 0,
            r.stale() == 0,
            r.sequence() == 0,
    {
        Engine { index: KvIndex::new(), current_gen: 0, uncompacted: 0, current_sequence: 0 }
    }

    /// The generation that appends go to.
    pub fn current_gen(&self) -> (r: u64)
        ensures
            r == self.gen(),
    {
        self.current_gen
    }

    /// The stale bytes counted since the last compaction.
    pub fn uncompacted(&self) -> (r: u64)
        ensures
            r == self.stale(),
    {
        self.uncompacted
    }

    /// The last sequence number handed out or seen.
    pub fn current_sequence(&self) -> (r: u64)
        ensures
            r == self.sequence(),
    {
        self.current_sequence
    }

    /// Replays the log of generation `gen` (see `load_v2`), adding its stale
    /// bytes and raising the sequence number to the highest one seen.
    pub fn replay(&mut self, gen: u64, data: &[u8]) -> (r: Result<(), KvsError>)
        requires
            old(self).wf(),
        ensures
            final(self).wf(),
            final(self).gen() == old(self).gen(),
            r is Ok ==> exists|recs: Seq<KvsCommand>|
                {
                    &&& forall|i: int| 0 <= i < recs.len() ==> valid_record(#[trigger] recs[i])
                    &&& log_bytes(recs) == data@.subrange(0, log_bytes(recs).len() as int)
                    &&& data@.len() - log_bytes(recs).len() < 4
                    &&& final(self).index_map() == replay(old(self).index_map(), 0, 0, gen, recs).0
                    &&& final(self).stale() == sat_add(
                        old(self).stale(),
                        replay(old(self).index_map(), 0, 0, gen, recs).1,
                    )
                    &&& final(self).sequence() == if replay(old(self).index_map(), 0, 0, gen, recs).2
                        > old(self).sequence() {
                        replay(old(self).index_map(), 0, 0, gen, recs).2
                    } else {
                        old(self).sequence()
                    }
                },
            r matches Err(e) ==> fails_at(data@, e),
            is_log(data@) ==> r is Ok,
    {
        let (stale, high) = load_v2(gen, data, &mut self.index)?;
        self.uncompacted = self.uncompacted.saturating_add(stale);
        if high > self.current_sequence {
            self.current_sequence = high;
        }
        Ok(())
    }

    /// Opens generation `gen` for appends.
    pub fn start(&mut self, gen: u64)
        requires
            old(self).wf(),
        ensures
            final(self).wf(),
            final(self).gen() == gen,
            final(self).index_map() == old(self).index_map(),
            final(self).stale() == old(self).stale(),
            final(self).sequence() == old(self).sequence(),
    {
        self.current_gen = gen;
    }

    /// The position of the latest `Set` record of `key`, if it is live.
    pub fn lookup(&self, key: &str) -> (r: Option<CommandPos>)
        requires
            self.wf(),
        ensures
            r == (if self.index_map().contains_key(key@) {
                Some(self.index_map()[key@])
            } else {
                None
            }),
    {
        self.index.get(key)
    }

    /// Takes the next sequence number and returns the framed `Set` record of
    /// `key` and `value` to append, or an I/O error where its body would not
    /// fit a 4-byte length.
    pub fn prepare_set(&mut self, key: String, value: String) -> (r: Result<Vec<u8>, KvsError>)
        requires
            old(self).wf(),
            old(self).sequence() < u64::MAX,
        ensures
            final(self).wf(),
            final(self).sequence() == old(self).sequence() + 1,
            final(self).index_map() == old(self).index_map(),
            final(self).gen() == old(self).gen(),
            final(self).stale() == old(self).stale(),
            r matches Ok(b) ==> exists|c: KvsCommand|
                is_set_record(c, key@, value@, final(self).sequence()) && valid_record(c) && b@
                    == framed(encode_body(c)),
            r matches Err(e) ==> e is IoError,
            r is Err ==> exists|c: KvsCommand|
                #[trigger] is_set_record(c, key@, value@, final(self).sequence())
                    && encode_body(c).len() > u32::MAX,
    {
        self.current_sequence = self.current_sequence + 1;
        let ghost k = key@;
        let ghost v = value@;
        let cmd = KvsCommand::set(key, value, self.current_sequence);
        assert(is_set_record(cmd, k, v, self.current_sequence));
        let body = cmd.encode_to_vec();
        if body.len() > u32::MAX as usize {
            assert(encode_body(cmd).len() > u32::MAX);
            assert(is_set_record(cmd, k, v, self.sequence()) && encode_body(cmd).len() > u32::MAX);
            let e = oversized();
            return Err(KvsError::IoError(e));
        }
        assert(valid_record(cmd));
        Ok(frame(&body))
    }

    /// Records that the `Set` of `key` was appended at `start..end` of the
    /// current log: the key now points there, and the record it replaces
    /// counts as stale. Returns whether the stale bytes now call for a
    /// compaction.
    pub fn commit_set(&mut self, key: String, start: u64, end: u64) -> (r: bool)
        requires
            old(self).wf(),
            start <= end,
        ensures
            final(self).wf(),
            (final(self).index_map(), final(self).stale()) == replay_step(
                old(self).index_map(),
                old(self).stale(),
                old(self).gen(),
                start,
                (end - start) as u64,
                true,
                key@,
            ),
            final(self).index_map() == old(self).index_map().insert(
                key@,
                CommandPos { gen: old(self).gen(), pos: start, len: (end - start) as u64 },
            ),
            final(self).gen() == old(self).gen(),
            final(self).sequence() == old(self).sequence(),
            r == (final(self).stale() > COMPACTION_THRESHOLD),
    {
        let p = CommandPos::from_range(self.current_gen, start, end);
        match self.index.insert(key, p) {
            Some(prev) => {
                self.uncompacted = self.uncompacted.saturating_add(prev.len);
            },
            None => {},
        }
        self.uncompacted > COMPACTION_THRESHOLD
    }

    /// What `prepare_remove` guarantees, from the state `before` it to the
    /// state `after` it, for `key` and its result `r`.
    pub open spec fn prepare_remove_post(
        before: Engine,
        after: Engine,
        key: Seq<char>,
        r: Result<Vec<u8>, KvsError>,
    ) -> bool {
        &&& after.wf()
        &&& after.index_map() == before.index_map()
        &&& after.gen() == before.gen()
        &&& after.stale() == before.stale()
        &&& (!before.index_map().contains_key(key) <==> (r matches Err(e) && e is KeyNotFound))
        &&& !before.index_map().contains_key(key) ==> after.sequence() == before.sequence()
        &&& before.index_map().contains_key(key) ==> after.sequence() == before.sequence() + 1
        &&& (r matches Ok(b) ==> exists|c: KvsCommand|
            is_remove_record(c, key, after.sequence()) && valid_record(c) && b@ == framed(
                encode_body(c),
            ))
        &&& (r matches Err(e) ==> e is KeyNotFound || e is IoError)
        &&& (r matches Err(e) && e is IoError ==> exists|c: KvsCommand|
            #[trigger] is_remove_record(c, key, after.sequence()) && encode_body(c).len() > u32::MAX)
    }

    /// Fails with `KeyNotFound`, changing nothing, where `key` is not live;
    /// else takes the next sequence number and returns the framed `Remove`
    /// record of `key` to append, or an I/O error where its body would not
    /// fit a 4-byte length.
    pub fn prepare_remove(&mut self, key: String) -> (r: Result<Vec<u8>, KvsError>)
        requires
            old(self).wf(),
            old(self).sequence() < u64::MAX,
        ensures
            Engine::prepare_remove_post(*old(self), *final(self), key@, r),
    {
        if !self.index.contains_key(key.as_str()) {
            return Err(KvsError::KeyNotFound);
        }
        self.current_sequence = self.current_sequence + 1;
        let ghost k = key@;
        let cmd = KvsCommand::remove(key, self.current_sequence);
        assert(is_remove_record(cmd, k, self.current_sequence));
        let body = cmd.encode_to_vec();
        if body.len() > u32::MAX as usize {
            assert(is_remove_record(cmd, k, self.sequence()) && encode_body(cmd).len() > u32::MAX);
            let e = oversized();
            return Err(KvsError::IoError(e));
        }
        assert(valid_record(cmd));
        Ok(frame(&body))
    }

    /// Records that the `Remove` of `key` was appended at `start..end` of the
    /// current log: the key is no longer live, and both the record it
    /// removes and the removal itself count as stale. Returns whether the
    /// stale bytes now call for a compaction.
    pub fn commit_remove(&mut self, key: &str, start: u64, end: u64) -> (r: bool)
        requires
            old(self).wf(),
            start <= end,
        ensures
            final(self).wf(),
            (final(self).index_map(), final(self).stale()) == replay_step(
                old(self).index_map(),
                old(self).stale(),
                old(self).gen(),
                start,
                (end - start) as u64,
                false,
                key@,
            ),
            final(self).index_map() == old(self).index_map().remove(key@),
            final(self).gen() == old(self).gen(),
            final(self).sequence() == old(self).sequence(),
            r == (final(self).stale() > COMPACTION_THRESHOLD),
    {
        match self.index.remove(key) {
            Some(prev) => {
                self.uncompacted = self.uncompacted.saturating_add(prev.len);
            },
            None => {},
        }
        self.uncompacted = self.uncompacted.saturating_add(end - start);
        self.uncompacted > COMPACTION_THRESHOLD
    }

    /// `plan` copies every live record once, in ascending key order, into log
    /// `gen + 1`: copy `i` is the record of the `i`-th key of the walk, the
    /// walk visits each live key exactly once, and the copies' lengths sum
    /// to a `u64`, the length of the new log.
    pub open spec fn is_plan(&self, plan: Compaction) -> bool {
        &&& plan.compaction_gen == self.gen() + 1
        &&& self.key_order().no_duplicates()
        &&& self.key_order().to_set() == self.index_map().dom()
        &&& self.key_order().len() == self.index_map().len()
        &&& forall|i: int, j: int|
            0 <= i < j < self.key_order().len() ==> key_lt(
                #[trigger] self.key_order()[i],
                #[trigger] self.key_order()[j],
            )
        &&& plan.copies@.len() == self.key_order().len()
        &&& forall|i: int|
            0 <= i < plan.copies@.len() ==> #[trigger] plan.copies@[i] == self.index_map()[self.key_order()[i]]
        &&& lens_sum(plan.copies@) <= u64::MAX
    }

    /// The copies that `compact_index` will ask for, without changing
    /// anything: the caller makes them first, and retargets the index
    /// only once they are in place. `None` exactly where `compact_index`
    /// returns `None`.
    pub fn compaction_plan(&self) -> (r: Option<Compaction>)
        requires
            self.wf(),
        ensures
            r is None <==> (self.gen() > u64::MAX - 2 || lens_sum(self.live_positions())
                > u64::MAX),
            r matches Some(plan) ==> self.is_plan(plan) && plan.copies@ == self.live_positions(),
    {
        if self.current_gen > u64::MAX - 2 {
            return None;
        }
        proof {
            self.index.lemma_key_order();
        }
        match self.index.live_copies() {
            Some(copies) => {
                let plan = Compaction { compaction_gen: self.current_gen + 1, copies };
                proof {
                    assert forall|i: int| 0 <= i < plan.copies@.len() implies #[trigger] plan.copies@[i]
                        == self.index_map()[self.key_order()[i]] by {}
                }
                Some(plan)
            },
            None => None,
        }
    }

    /// Compacts the index: every live record moves, in ascending key order and back
    /// to back from offset 0, to log `gen + 1`; appends go on to log
    /// `gen + 2`, and no byte counts as stale. Returns the copies that the
    /// caller must make into log `gen + 1` before it deletes every log below
    /// it. Returns `None`, changing nothing, where `gen + 2` or the live
    /// bytes do not fit in a `u64`.
    pub fn compact_index(&mut self) -> (r: Option<Compaction>)
        requires
            old(self).wf(),
        ensures
            final(self).wf(),
            final(self).sequence() == old(self).sequence(),
            final(self).key_order() == old(self).key_order(),
            r is None <==> (old(self).gen() > u64::MAX - 2 || lens_sum(old(self).live_positions())
                > u64::MAX),
            r is None ==> final(self).index_map() == old(self).index_map() && final(self).gen()
                == old(self).gen() && final(self).stale() == old(self).stale(),
            r matches Some(plan) ==> {
                &&& plan.compaction_gen == old(self).gen() + 1
                &&& final(self).gen() == old(self).gen() + 2
                &&& final(self).stale() == 0
                &&& old(self).is_plan(plan)
                &&& final(self).index_map().dom() == old(self).index_map().dom()
                &&& forall|i: int|
                    0 <= i < plan.copies@.len() ==> #[trigger] final(self).index_map()[old(
                        self,
                    ).key_order()[i]] == (CommandPos {
                        gen: plan.compaction_gen,
                        pos: lens_sum(plan.copies@.take(i)) as u64,
                        len: plan.copies@[i].len,
                    })
            },
    {
        if self.current_gen > u64::MAX - 2 {
            return None;
        }
        let compaction_gen = self.current_gen + 1;
        proof {
            self.index.lemma_key_order();
        }
        match self.index.retarget(compaction_gen) {
            Some(copies) => {
                self.current_gen = self.current_gen + 2;
                self.uncompacted = 0;
                let plan = Compaction { compaction_gen, copies };
                proof {
                    assert forall|i: int| 0 <= i < plan.copies@.len() implies #[trigger] plan.copies@[i]
                        == old(self).index_map()[old(self).key_order()[i]] by {}
                }
                Some(plan)
            },
            None => None,
        }
    }
}

/// A value read back: the record body at an indexed position must decode,
/// hold its checksum, and be a `Set`, whose value is returned.
pub fn read_value(body: &[u8]) -> (r: Result<String, KvsError>)
    ensures
        (r matches Err(e) && e is Deserialize) <==> !exists|c: KvsCommand| encode_body(c) == body@,
        forall|c: KvsCommand|
            #[trigger] encode_body(c) == body@ ==> {
                &&& !checksum_holds(c) <==> (r matches Err(e) && e is CorruptedData)
                &&& checksum_holds(c) && c.command->Some_0 is Remove <==> (r matches Err(e)
                    && e is UnexpectedCommandType)
                &&& checksum_holds(c) && c.command->Some_0 is SetValue <==> r is Ok
                &&& r matches Ok(v) ==> v@ == c.command->Some_0->SetValue_value@
            },
        r matches Err(e) ==> e is Deserialize || e is CorruptedData || e is UnexpectedCommandType,
{
    let cmd = KvsCommand::decode(body)?;
    let blen = body.len();
    assert(blen as int <= u64::MAX);
    proof {
        assert forall|c: KvsCommand| #[trigger] encode_body(c) == body@ implies command_view(c.command)
            == command_view(cmd.command) && c.checksum == cmd.checksum by {
            lemma_encode_body_injective(c, cmd);
        }
    }
    if !cmd.verify_checksum() {
        return Err(KvsError::CorruptedData);
    }
    match cmd.command {
        Some(Command::SetValue { value, .. }) => Ok(value),
        _ => Err(KvsError::UnexpectedCommandType),
    }
}

/// The live keys and values that `recs` leave, in order: a `Set` binds its
/// key to its value, a `Remove` unbinds its key.
pub open spec fn model(recs: Seq<KvsCommand>) -> Map<Seq<char>, Seq<char>>
    decreases recs.len(),
{
    if recs.len() == 0 {
        Map::empty()
    } else {
        let m = model(recs.drop_last());
        match recs.last().command {
            Some(Command::SetValue { key, value }) => m.insert(key@, value@),
            Some(Command::Remove { key }) => m.remove(key@),
            None => m,
        }
    }
}

/// The record framed at `p` in `log` is a `Set` of `k` to `v` whose
/// checksum holds.
pub open spec fn holds_set_at(log: Seq<u8>, p: CommandPos, k: Seq<char>, v: Seq<char>) -> bool {
    exists|c: KvsCommand|
        {
            &&& p.pos + p.len <= log.len()
            &&& log.subrange(p.pos as int, p.pos + p.len) == framed(encode_body(c))
            &&& checksum_holds(c)
            &&& command_view(c.command) == Some((true, k, v))
        }
}

/// Replaying a log of valid records into an empty index makes exactly the
/// keys that the records leave live, each pointing, in that log, at a `Set`
/// of it to the value that the records leave. So what `get` returns after a
/// store is reopened is what the sets and removes before it left.
pub proof fn lemma_replay_model(gen: u64, recs: Seq<KvsCommand>)
    requires
        forall|i: int| 0 <= i < recs.len() ==> valid_record(#[trigger] recs[i]),
        log_bytes(recs).len() <= u64::MAX,
    ensures
        replay(Map::empty(), 0, 0, gen, recs).0.dom() == model(recs).dom(),
        forall|k: Seq<char>|
            #[trigger] model(recs).contains_key(k) ==> replay(Map::empty(), 0, 0, gen, recs).0[k].gen
                == gen && holds_set_at(
                log_bytes(recs),
                replay(Map::empty(), 0, 0, gen, recs).0[k],
                k,
                model(recs)[k],
            ),
    decreases recs.len(),
{
    if recs.len() == 0 {
        assert(replay(Map::empty(), 0, 0, gen, recs).0.dom() =~= model(recs).dom());
        return;
    }
    let prev = recs.drop_last();
    let c = recs.last();
    let lp = log_bytes(prev);
    let lb = log_bytes(recs);
    let fc = framed(encode_body(c));
    assert(lb == lp + fc);
    assert forall|i: int| 0 <= i < prev.len() implies valid_record(#[trigger] prev[i]) by {
        assert(prev[i] == recs[i]);
    }
    lemma_replay_model(gen, prev);
    let m0 = replay(Map::empty(), 0, 0, gen, prev).0;
    let m = replay(Map::empty(), 0, 0, gen, recs).0;
    let cmd = c.command->Some_0;
    let k = command_key(cmd);
    let here = CommandPos { gen, pos: lp.len() as u64, len: fc.len() as u64 };
    assert(lb.subrange(lp.len() as int, (lp.len() + fc.len()) as int) =~= fc);
    assert forall|q: CommandPos, kk: Seq<char>, vv: Seq<char>|
        holds_set_at(lp, q, kk, vv) implies #[trigger] holds_set_at(lb, q, kk, vv) by {
        let w = choose|w: KvsCommand|
            {
                &&& q.pos + q.len <= lp.len()
                &&& lp.subrange(q.pos as int, q.pos + q.len) == framed(encode_body(w))
                &&& checksum_holds(w)
                &&& command_view(w.command) == Some((true, kk, vv))
            };
        assert(lb.subrange(q.pos as int, q.pos + q.len) =~= lp.subrange(q.pos as int, q.pos + q.len));
    }
    match cmd {
        Command::SetValue { key, value } => {
            assert(m == m0.insert(k, here));
            assert(model(recs) == model(prev).insert(key@, value@));
            assert(m.dom() =~= model(recs).dom());
            assert(holds_set_at(lb, here, key@, value@)) by {
                assert(checksum_holds(c));
                assert(command_view(c.command) == Some((true, key@, value@)));
            }
            assert forall|kk: Seq<char>| #[trigger] model(recs).contains_key(kk) implies m[kk].gen
                == gen && holds_set_at(lb, m[kk], kk, model(recs)[kk]) by {
                if kk != k {
                    assert(holds_set_at(lp, m0[kk], kk, model(prev)[kk]));
                }
            }
        },
        Command::Remove { key } => {
            assert(m == m0.remove(k));
            assert(model(recs) == model(prev).remove(key@));
            assert(m.dom() =~= model(recs).dom());
            assert forall|kk: Seq<char>| #[trigger] model(recs).contains_key(kk) implies m[kk].gen
                == gen && holds_set_at(lb, m[kk], kk, model(recs)[kk]) by {
                assert(holds_set_at(lp, m0[kk], kk, model(prev)[kk]));
            }
        },
    }
}

/// The highest sequence number that replay reports is at least that of
/// every record replayed, so numbers handed out after reopening exceed
/// every number in the logs.
pub proof fn lemma_replay_highest(
    m: Map<Seq<char>, CommandPos>,
    stale: u64,
    high: u64,
    gen: u64,
    recs: Seq<KvsCommand>,
)
    ensures
        replay(m, stale, high, gen, recs).2 >= high,
        forall|i: int|
            0 <= i < recs.len() ==> #[trigger] recs[i].sequence_number <= replay(
                m,
                stale,
                high,
                gen,
                recs,
            ).2,
    decreases recs.len(),
{
    if recs.len() > 0 {
        let prev = recs.drop_last();
        lemma_replay_highest(m, stale, high, gen, prev);
        assert forall|i: int| 0 <= i < recs.len() implies #[trigger] recs[i].sequence_number
            <= replay(m, stale, high, gen, recs).2 by {
            if i < prev.len() {
                assert(recs[i] == prev[i]);
            }
        }
    }
}

/// The last write of a key decides it: after a `Set` of `k` to `v`, `k` is
/// live with value `v`, whatever came before (an overwrite keeps only the
/// newer value); after a `Remove` of `k`, `k` is not live.
pub proof fn lemma_last_write_wins(recs: Seq<KvsCommand>, c: KvsCommand)
    ensures
        c.command matches Some(Command::SetValue { key, value }) ==> model(recs.push(c)).contains_key(
            key@,
        ) && model(recs.push(c))[key@] == value@,
        c.command matches Some(Command::Remove { key }) ==> !model(recs.push(c)).contains_key(key@),
        c.command matches Some(cmd) ==> forall|k: Seq<char>|
            k != command_key(cmd) ==> (#[trigger] model(recs.push(c)).contains_key(k)
                == model(recs).contains_key(k)) && model(recs.push(c))[k] == model(recs)[k],
{
    assert(recs.push(c).drop_last() =~= recs);
}

/// A removal of a key that is not live fails with `KeyNotFound` and
/// changes nothing, so the key stays absent and `lookup` finds nothing.
pub proof fn lemma_remove_absent(
    before: Engine,
    after: Engine,
    key: Seq<char>,
    r: Result<Vec<u8>, KvsError>,
)
    requires
        before.wf(),
        before.sequence() < u64::MAX,
        !before.index_map().contains_key(key),
        Engine::prepare_remove_post(before, after, key, r),
    ensures
        r matches Err(e) && e is KeyNotFound,
        after.index_map() == before.index_map(),
        after.sequence() == before.sequence(),
        !after.index_map().contains_key(key),
{
}

} // verus!
