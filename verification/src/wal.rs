//! The write-ahead log: each write as `key length | key | value length | value`,
//! lengths as big-endian `u16`.
use crate::block::{be_value, get_u16, put_slice, put_u16, u16_be};
use vstd::prelude::*;

verus! {

/// Why a write cannot be logged.
#[derive(Debug, PartialEq, Eq)]
pub enum WalError {
    /// The key is longer than `u16::MAX` bytes.
    KeyTooLarge,
    /// The value is longer than `u16::MAX` bytes.
    ValueTooLarge,
}

/// The log record of one write.
pub open spec fn wal_record_image(key: Seq<u8>, value: Seq<u8>) -> Seq<u8> {
    u16_be(key.len()) + key + u16_be(value.len()) + value
}

/// The records of a log, or `None` when it ends inside a record.
pub open spec fn wal_parse(data: Seq<u8>) -> Option<Seq<(Seq<u8>, Seq<u8>)>>
    decreases data.len(),
{
    if data.len() == 0 {
        Some(Seq::empty())
    } else if data.len() < 2 {
        None
    } else {
        let key_len = be_value(data[0], data[1]) as int;
        if data.len() < key_len + 4 {
            None
        } else {
            let value_len = be_value(data[key_len + 2], data[key_len + 3]) as int;
            if data.len() < key_len + value_len + 4 {
                None
            } else {
                let key = data.subrange(2, 2 + key_len);
                let value = data.subrange(key_len + 4, key_len + 4 + value_len);
                match wal_parse(data.skip(key_len + value_len + 4)) {
                    Some(rest) => Some(seq![(key, value)] + rest),
                    None => None,
                }
            }
        }
    }
}

/// A log holding the records of `writes`, in order.
pub open spec fn wal_log_image(writes: Seq<(Seq<u8>, Seq<u8>)>) -> Seq<u8>
    decreases writes.len(),
{
    if writes.len() == 0 {
        Seq::empty()
    } else {
        wal_record_image(writes[0].0, writes[0].1) + wal_log_image(writes.drop_first())
    }
}

/// Every key and value of `writes` has a length that fits a `u16`: what
/// [`encode_wal_record`] accepts.
pub open spec fn wal_loggable(writes: Seq<(Seq<u8>, Seq<u8>)>) -> bool {
    forall|i: int|
        0 <= i < writes.len() ==> (#[trigger] writes[i]).0.len() <= 65535 && writes[i].1.len() <= 65535
}

/// Reading a log gives back every write logged, in the order they were logged.
pub proof fn lemma_wal_read_back(writes: Seq<(Seq<u8>, Seq<u8>)>)
    requires
        wal_loggable(writes),
    ensures
        wal_parse(wal_log_image(writes)) == Some(writes),
    decreases writes.len(),
{
    if writes.len() > 0 {
        let (key, value) = writes[0];
        let rest = writes.drop_first();
        assert(wal_loggable(rest)) by {
            assert forall|i: int| 0 <= i < rest.len() implies (#[trigger] rest[i]).0.len() <= 65535
                && rest[i].1.len() <= 65535 by {
                assert(rest[i] == writes[i + 1]);
            }
        }
        lemma_wal_read_back(rest);
        let data = wal_log_image(writes);
        let head = wal_record_image(key, value);
        crate::block::lemma_u16_be(key.len());
        crate::block::lemma_u16_be(value.len());
        let k = key.len() as int;
        let v = value.len() as int;
        assert(head.len() == k + v + 4);
        assert(data == head + wal_log_image(rest));
        assert(data[0] == head[0] && data[1] == head[1]);
        assert(data[k + 2] == head[k + 2] && data[k + 3] == head[k + 3]);
        assert(head[k + 2] == u16_be(value.len())[0]);
        assert(head[k + 3] == u16_be(value.len())[1]);
        assert(data.subrange(2, 2 + k) =~= key);
        assert(data.subrange(k + 4, k + 4 + v) =~= value);
        assert(data.skip(k + v + 4) =~= wal_log_image(rest));
        assert(seq![(key, value)] + rest =~= writes);
    }
}

/// Encodes the log record of a write, refusing a key or value longer than
/// `u16::MAX` bytes.
pub fn encode_wal_record(key: &[u8], value: &[u8]) -> (r: Result<Vec<u8>, WalError>)
    ensures
        key@.len() > 65535 ==> r is Err && r->Err_0 == WalError::KeyTooLarge,
        key@.len() <= 65535 && value@.len() > 65535 ==> r is Err && r->Err_0 == WalError::ValueTooLarge,
        key@.len() <= 65535 && value@.len() <= 65535 ==> r is Ok && r->Ok_0@ == wal_record_image(key@, value@),
{
    if key.len() > 65535 {
        return Err(WalError::KeyTooLarge);
    }
    if value.len() > 65535 {
        return Err(WalError::ValueTooLarge);
    }
    let mut buf: Vec<u8> = Vec::new();
    put_u16(&mut buf, key.len() as u16);
    put_slice(&mut buf, key);
    put_u16(&mut buf, value.len() as u16);
    put_slice(&mut buf, value);
    assert(buf@ =~= wal_record_image(key@, value@));
    Ok(buf)
}

/// Whether the log ends at a record boundary, so that it can be decoded.
pub fn wal_complete(data: &[u8]) -> (r: bool)
    ensures
        r == wal_parse(data@) is Some,
{
    let mut cur: usize = 0;
    let n = data.len();
    assert(data@.skip(0) =~= data@);
    while cur < n
        invariant
            cur <= n,
            n == data@.len(),
            (wal_parse(data@) is Some) == (wal_parse(data@.skip(cur as int)) is Some),
        decreases n - cur,
    {
        let ghost rest = data@.skip(cur as int);
        if n - cur < 2 {
            return false;
        }
        proof {
            assert(rest[0] == data@[cur as int]);
            assert(rest[1] == data@[cur + 1]);
        }
        let key_len = get_u16(data, cur) as usize;
        if n - cur - 2 < key_len + 2 {
            return false;
        }
        let value_len_at = cur + 2 + key_len;
        proof {
            assert(rest[key_len + 2] == data@[value_len_at as int]);
            assert(rest[key_len + 3] == data@[value_len_at + 1]);
        }
        let value_len = get_u16(data, value_len_at) as usize;
        if n - value_len_at - 2 < value_len {
            return false;
        }
        proof {
            assert(rest.skip(key_len + value_len + 4) =~= data@.skip(value_len_at + 2 + value_len));
        }
        cur = value_len_at + 2 + value_len;
    }
    assert(data@.skip(n as int) =~= Seq::<u8>::empty());
    true
}

/// Decodes the records of a log that ends at a record boundary.
pub fn decode_wal_records(data: &[u8]) -> (r: Vec<(Vec<u8>, Vec<u8>)>)
    requires
        wal_parse(data@) is Some,
    ensures
        wal_parse(data@) == Some(Seq::new(r@.len(), |i: int| (r@[i].0@, r@[i].1@))),
{
    let mut out: Vec<(Vec<u8>, Vec<u8>)> = Vec::new();
    let mut cur: usize = 0;
    let n = data.len();
    assert(data@.skip(0) =~= data@);
    while cur < n
        invariant
            cur <= n,
            n == data@.len(),
            wal_parse(data@.skip(cur as int)) is Some,
            wal_parse(data@) == Some(
                Seq::new(out@.len(), |i: int| (out@[i].0@, out@[i].1@)) + wal_parse(
                    data@.skip(cur as int),
                )->0,
            ),
        decreases n - cur,
    {
        let ghost rest = data@.skip(cur as int);
        let key_len = get_u16(data, cur) as usize;
        proof {
            assert(rest[0] == data@[cur as int]);
            assert(rest[1] == data@[cur + 1]);
        }
        let key_start = cur + 2;
        let value_len_at = key_start + key_len;
        proof {
            assert(rest[key_len + 2] == data@[value_len_at as int]);
            assert(rest[key_len + 3] == data@[value_len_at + 1]);
        }
        let value_len = get_u16(data, value_len_at) as usize;
        let value_start = value_len_at + 2;
        let key = crate::block::copy_bytes(&data[key_start..value_len_at]);
        let value = crate::block::copy_bytes(&data[value_start..value_start + value_len]);
        let ghost before = out@;
        out.push((key, value));
        proof {
            assert(rest.subrange(2, 2 + key_len) =~= key@);
            assert(rest.subrange(key_len + 4, key_len + 4 + value_len) =~= value@);
            assert(rest.skip(key_len + value_len + 4) =~= data@.skip(value_start + value_len));
            assert(Seq::new(out@.len(), |i: int| (out@[i].0@, out@[i].1@)) =~= Seq::new(
                before.len(),
                |i: int| (before[i].0@, before[i].1@),
            ).push((key@, value@)));
        }
        cur = value_start + value_len;
    }
    assert(data@.skip(n as int) =~= Seq::<u8>::empty());
    assert(Seq::new(out@.len(), |i: int| (out@[i].0@, out@[i].1@)) + Seq::<(Seq<u8>, Seq<u8>)>::empty()
        =~= Seq::new(out@.len(), |i: int| (out@[i].0@, out@[i].1@)));
    out
}

} // verus!
