//! Commands of the log.
use vstd::prelude::*;
use crate::bytes;
use crate::error::{ErrorKind, IoError, IoFailure};
use crate::storage::record;
use crate::storage::record::RecordType;

verus! {

/// A change of a key, with its sequence number.
#[derive(Debug, PartialEq)]
pub struct LogCommand {
    pub record_type: RecordType,
    pub key: Vec<u8>,
    pub value: Vec<u8>,
    pub lsn: u64,
}

/// What a command says.
#[verifier::ext_equal]
pub struct CommandView {
    pub record_type: RecordType,
    pub key: Seq<u8>,
    pub value: Seq<u8>,
    pub lsn: u64,
}

impl View for LogCommand {
    type V = CommandView;

    open spec fn view(&self) -> CommandView {
        CommandView {
            record_type: self.record_type,
            key: self.key@,
            value: self.value@,
            lsn: self.lsn,
        }
    }
}

impl Clone for LogCommand {
    fn clone(&self) -> (c: LogCommand)
        ensures
            c@ == self@,
    {
        LogCommand {
            record_type: self.record_type,
            key: bytes::copy_bytes(self.key.as_slice()),
            value: bytes::copy_bytes(self.value.as_slice()),
            lsn: self.lsn,
        }
    }
}

/// The place of a record in the log.
#[derive(Clone, Copy, Debug, PartialEq, Eq, Structural)]
pub struct LogPosition {
    pub lsn: u64,
}

impl CommandView {
    /// The bytes of a command: its type, key and value behind their lengths, and the
    /// sequence number; the numbers with the least significant byte first.
    pub open spec fn bytes(self) -> Seq<u8> {
        seq![self.record_type.code()] + bytes::le64(self.key.len() as u64) + self.key
            + bytes::le64(self.value.len() as u64) + self.value + bytes::le64(self.lsn)
    }

    /// The data is as long as the command in it says.
    pub open spec fn complete(s: Seq<u8>) -> bool {
        &&& s.len() > 0
        &&& RecordType::of_code(s[0]) is Some ==> {
            let key_len = bytes::le64_at(s, 1) as int;
            let value_len = bytes::le64_at(s, 9 + key_len) as int;
            &&& bytes::holds(s, 0, 9)
            &&& bytes::holds(s, 0, 17 + key_len)
            &&& bytes::holds(s, 0, 25 + key_len + value_len)
        }
    }

    /// The command in the data.
    pub open spec fn parse(s: Seq<u8>) -> Result<CommandView, IoFailure> {
        match RecordType::of_code(s[0]) {
            None => Err(record::bad_record_type()),
            Some(record_type) => {
                let key_len = bytes::le64_at(s, 1) as int;
                let value_len = bytes::le64_at(s, 9 + key_len) as int;
                let value_at = 17 + key_len;
                Ok(
                    CommandView {
                        record_type,
                        key: s.subrange(9, 9 + key_len),
                        value: s.subrange(value_at, value_at + value_len),
                        lsn: bytes::le64_at(s, value_at + value_len),
                    },
                )
            },
        }
    }
}

impl LogCommand {
    /// A command with the given parts.
    pub fn new(record_type: RecordType, key: Vec<u8>, value: Vec<u8>, lsn: u64) -> (c: LogCommand)
        ensures
            c@ == (CommandView { record_type, key: key@, value: value@, lsn }),
    {
        LogCommand { record_type, key, value, lsn }
    }

    /// The bytes of the command.
    pub fn serialize(&self) -> (out: Vec<u8>)
        ensures
            out@ == self@.bytes(),
    {
        let mut out: Vec<u8> = Vec::new();
        out.push(self.record_type.to_u8());
        bytes::push_le64(&mut out, self.key.len() as u64);
        bytes::push_all(&mut out, self.key.as_slice());
        bytes::push_le64(&mut out, self.value.len() as u64);
        bytes::push_all(&mut out, self.value.as_slice());
        bytes::push_le64(&mut out, self.lsn);
        assert(out@ =~= self@.bytes());
        out
    }

    /// Whether `deserialize` may be called on the data.
    pub fn is_complete(data: &[u8]) -> (r: bool)
        ensures
            r == CommandView::complete(data@),
    {
        let len: usize = data.len();
        if len == 0 {
            return false;
        }
        if RecordType::from_u8(data[0]).is_none() {
            return true;
        }
        if len < 9 {
            return false;
        }
        let key_len: u64 = bytes::get_le64(data, 1);
        if len < 17 || key_len > (len - 17) as u64 {
            return false;
        }
        let value_len: u64 = bytes::get_le64(data, 9 + key_len as usize);
        let left: u64 = len as u64 - 17 - key_len;
        left >= 8 && value_len <= left - 8
    }

    /// The command in the data.
    pub fn deserialize(data: &[u8]) -> (r: Result<LogCommand, IoError>)
        requires
            CommandView::complete(data@),
        ensures
            match r {
                Ok(c) => CommandView::parse(data@) == Ok::<_, IoFailure>(c@),
                Err(e) => CommandView::parse(data@) == Err::<CommandView, _>(e@),
            },
    {
        let record_type = match RecordType::from_u8(data[0]) {
            Some(record_type) => record_type,
            None => {
                return Err(IoError::new(ErrorKind::InvalidData, "Invalid record type"));
            },
        };
        assert(data@.len() == data.len());
        let key_len: usize = bytes::get_le64(data, 1) as usize;
        let value_len: usize = bytes::get_le64(data, 9 + key_len) as usize;
        let value_at: usize = 17 + key_len;
        let end: usize = value_at + value_len;
        Ok(
            LogCommand {
                record_type,
                key: bytes::copy_range(data, 9, 9 + key_len),
                value: bytes::copy_range(data, value_at, end),
                lsn: bytes::get_le64(data, end),
            },
        )
    }
}

/// Reading gives back the command that was serialized.
pub proof fn law_command_round_trip(c: CommandView)
    requires
        c.key.len() <= u64::MAX,
        c.value.len() <= u64::MAX,
    ensures
        CommandView::complete(c.bytes()),
        CommandView::parse(c.bytes()) == Ok::<_, IoFailure>(c),
{
    broadcast use crate::bytes::group_bytes;

    let s = c.bytes();
    let (k, n) = (c.key.len() as int, c.value.len() as int);
    assert(s[0] == c.record_type.code());
    assert(s.subrange(1, 9) =~= bytes::le64(c.key.len() as u64));
    assert(s.subrange(9, 9 + k) =~= c.key);
    assert(s.subrange(9 + k, 17 + k) =~= bytes::le64(c.value.len() as u64));
    assert(s.subrange(17 + k, 17 + k + n) =~= c.value);
    assert(s.subrange(17 + k + n, 25 + k + n) =~= bytes::le64(c.lsn));
}

/// Where the fields of a command are: the type in one byte, key and value each with its
/// length before it, and the number; numbers are little-endian.
pub proof fn law_command_layout(c: CommandView)
    requires
        c.key.len() <= u64::MAX,
        c.value.len() <= u64::MAX,
    ensures
        ({
            let (b, k, n) = (c.bytes(), c.key.len() as int, c.value.len() as int);
            &&& b.len() == 25 + k + n
            &&& b[0] == c.record_type.code()
            &&& bytes::le64_at(b, 1) == k
            &&& b.subrange(9, 9 + k) == c.key
            &&& bytes::le64_at(b, 9 + k) == n
            &&& b.subrange(17 + k, 17 + k + n) == c.value
            &&& bytes::le64_at(b, 17 + k + n) == c.lsn
        }),
{
    broadcast use bytes::group_bytes;

    let (b, k, n) = (c.bytes(), c.key.len() as int, c.value.len() as int);
    assert(b.subrange(1, 9) =~= bytes::le64(k as u64));
    assert(b.subrange(9, 9 + k) =~= c.key);
    assert(b.subrange(9 + k, 17 + k) =~= bytes::le64(n as u64));
    assert(b.subrange(17 + k, 17 + k + n) =~= c.value);
    assert(b.subrange(17 + k + n, 25 + k + n) =~= bytes::le64(c.lsn));
}

/// What is read as a command begins with the bytes of that command; bytes that end before
/// it does are no command.
pub proof fn law_command_read_was_written(s: Seq<u8>, c: CommandView, n: int)
    requires
        c.key.len() <= u64::MAX,
        c.value.len() <= u64::MAX,
    ensures
        CommandView::complete(s) && CommandView::parse(s) == Ok::<_, IoFailure>(c)
            ==> c.bytes().len() <= s.len() && s.take(c.bytes().len() as int) == c.bytes(),
        0 <= n < c.bytes().len() ==> !CommandView::complete(c.bytes().take(n)),
{
    broadcast use bytes::group_bytes;

    let (k, m) = (c.key.len() as int, c.value.len() as int);
    law_command_layout(c);
    if CommandView::complete(s) && CommandView::parse(s) == Ok::<_, IoFailure>(c) {
        record::law_type_codes(c.record_type, s[0]);
        bytes::lemma_number_at(s, 1);
        bytes::lemma_number_at(s, 9 + k);
        bytes::lemma_number_at(s, 17 + k + m);
        let t = s.take(25 + k + m);
        assert(t =~= seq![s[0]] + s.subrange(1, 9) + s.subrange(9, 9 + k) + s.subrange(
            9 + k,
            17 + k,
        ) + s.subrange(17 + k, 17 + k + m) + s.subrange(17 + k + m, 25 + k + m));
    }
    if 0 <= n < c.bytes().len() {
        let t = c.bytes().take(n);
        record::law_type_codes(c.record_type, c.bytes()[0]);
        if n > 0 {
            assert(t[0] == c.bytes()[0]);
        }
        if n >= 9 {
            assert(t.subrange(1, 9) =~= c.bytes().subrange(1, 9));
            if n >= 17 + k {
                assert(t.subrange(9 + k, 17 + k) =~= c.bytes().subrange(9 + k, 17 + k));
            }
        }
    }
}

} // verus!
