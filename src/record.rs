//! The record codec: one `(hash, key, value)` triple laid out as bytes.
use vstd::bytes::*;
use vstd::prelude::*;
use vstd::slice::slice_subrange;

verus! {

/// Number of bytes in a page of the buckets file.
pub const PAGE_BYTES: usize = 4096;

/// Bytes at the start of a page that hold the bucket's local level.
pub const BUCKET_HEADER_BYTES: usize = 1;

/// Bytes that the records of one page may take together.
pub const PAGE_RECORD_SPACE: usize = 4095;

/// Bytes of a record that are not its key or its value: the presence
/// marker, the hash and the two length fields.
pub const RECORD_OVERHEAD_BYTES: usize = 13;

/// The largest combined key and value length that fits in an empty page.
pub const MAX_RECORD_KEY_VALUE_BYTES: usize = 4082;

/// The byte that opens every stored record.
pub const RECORD_PRESENT: u8 = 1;

/// A stored record: the hash of the key, the key bytes and the value bytes.
#[derive(Clone, Debug, PartialEq)]
pub struct Record(pub u64, pub Vec<u8>, pub Vec<u8>);

/// What a record holds, as plain values.
pub type RecordModel = (u64, Seq<u8>, Seq<u8>);

impl View for Record {
    type V = RecordModel;

    open spec fn view(&self) -> RecordModel {
        (self.0, self.1@, self.2@)
    }
}

/// A record can be written when both lengths fit their 16-bit fields.
pub open spec fn record_encodable(r: RecordModel) -> bool {
    r.1.len() <= u16::MAX && r.2.len() <= u16::MAX
}

/// Length of a record once written.
pub open spec fn record_len(r: RecordModel) -> nat {
    13 + r.1.len() + r.2.len()
}

/// The bytes of a record: marker, hash, key length, key, value length, value;
/// integers little-endian.
pub open spec fn record_bytes(r: RecordModel) -> Seq<u8> {
    seq![RECORD_PRESENT] + spec_u64_to_le_bytes(r.0) + spec_u16_to_le_bytes(r.1.len() as u16)
        + r.1 + spec_u16_to_le_bytes(r.2.len() as u16) + r.2
}

/// The record that starts at offset `i` of `s`, with the offset just past it;
/// `None` where no marker stands there or the bytes end inside the record.
pub open spec fn parse_record_at(s: Seq<u8>, i: int) -> Option<(RecordModel, int)> {
    if 0 <= i && i + 11 <= s.len() && s[i] == RECORD_PRESENT {
        let h = spec_u64_from_le_bytes(s.subrange(i + 1, i + 9));
        let kl = spec_u16_from_le_bytes(s.subrange(i + 9, i + 11)) as int;
        let ks = i + 11;
        if ks + kl + 2 <= s.len() {
            let vl = spec_u16_from_le_bytes(s.subrange(ks + kl, ks + kl + 2)) as int;
            let vs = ks + kl + 2;
            if vs + vl <= s.len() {
                Some(((h, s.subrange(ks, ks + kl), s.subrange(vs, vs + vl)), vs + vl))
            } else {
                None
            }
        } else {
            None
        }
    } else {
        None
    }
}

/// Reading a record back from its own bytes, with anything after them,
/// gives the record and stops right after it.
pub proof fn lemma_record_round_trip(r: RecordModel, rest: Seq<u8>)
    requires
        record_encodable(r),
    ensures
        record_bytes(r).len() == record_len(r),
        parse_record_at(record_bytes(r) + rest, 0) == Some((r, record_len(r) as int)),
{
    lemma_auto_spec_u64_to_from_le_bytes();
    lemma_auto_spec_u16_to_from_le_bytes();
    let s = record_bytes(r) + rest;
    let kl = r.1.len() as int;
    let vl = r.2.len() as int;
    assert(s.subrange(1, 9) =~= spec_u64_to_le_bytes(r.0));
    assert(s.subrange(9, 11) =~= spec_u16_to_le_bytes(r.1.len() as u16));
    assert(s.subrange(11, 11 + kl) =~= r.1);
    assert(s.subrange(11 + kl, 13 + kl) =~= spec_u16_to_le_bytes(r.2.len() as u16));
    assert(s.subrange(13 + kl, 13 + kl + vl) =~= r.2);
}

/// Copies `src` onto the end of `dst`.
pub fn append_bytes(dst: &mut Vec<u8>, src: &[u8])
    ensures
        final(dst)@ == old(dst)@ + src@,
{
    let mut i: usize = 0;
    while i < src.len()
        invariant
            i <= src@.len(),
            dst@ == old(dst)@ + src@.subrange(0, i as int),
        decreases src@.len() - i,
    {
        dst.push(src[i]);
        i = i + 1;
        assert(dst@ =~= old(dst)@ + src@.subrange(0, i as int));
    }
    assert(src@.subrange(0, i as int) =~= src@);
}

/// The bytes `s[from..to]` as a vector.
pub fn copy_range(s: &[u8], from: usize, to: usize) -> (r: Vec<u8>)
    requires
        from <= to <= s@.len(),
    ensures
        r@ == s@.subrange(from as int, to as int),
{
    let mut r: Vec<u8> = Vec::new();
    let mut i: usize = from;
    while i < to
        invariant
            from <= i <= to <= s@.len(),
            r@ == s@.subrange(from as int, i as int),
        decreases to - i,
    {
        r.push(s[i]);
        i = i + 1;
        assert(r@ =~= s@.subrange(from as int, i as int));
    }
    r
}

impl Record {
    /// A copy of the record.
    pub fn clone_record(&self) -> (r: Record)
        ensures
            r@ == self@,
    {
        let key = copy_range(self.1.as_slice(), 0, self.1.len());
        let value = copy_range(self.2.as_slice(), 0, self.2.len());
        proof {
            assert(self.1@.subrange(0, self.1@.len() as int) =~= self.1@);
            assert(self.2@.subrange(0, self.2@.len() as int) =~= self.2@);
        }
        Record(self.0, key, value)
    }

    /// Length of the record once written: 13 bytes beside its key and value.
    pub fn byte_len(&self) -> (r: usize)
        requires
            record_encodable(self@),
        ensures
            r == record_len(self@),
    {
        RECORD_OVERHEAD_BYTES + self.1.len() + self.2.len()
    }

    /// Writes the record as bytes.
    pub fn into_bytes(self) -> (r: Vec<u8>)
        requires
            record_encodable(self@),
        ensures
            r@ == record_bytes(self@),
    {
        let mut out: Vec<u8> = Vec::new();
        out.push(RECORD_PRESENT);
        let h = u64_to_le_bytes(self.0);
        append_bytes(&mut out, h.as_slice());
        let kl = u16_to_le_bytes(self.1.len() as u16);
        append_bytes(&mut out, kl.as_slice());
        append_bytes(&mut out, self.1.as_slice());
        let vl = u16_to_le_bytes(self.2.len() as u16);
        append_bytes(&mut out, vl.as_slice());
        append_bytes(&mut out, self.2.as_slice());
        assert(out@ =~= record_bytes(self@));
        out
    }

    /// Reads the record that starts at offset `pos` of `bytes`; on success
    /// also returns the offset just past it.
    pub fn from_bytes(bytes: &[u8], pos: usize) -> (r: Result<(Record, usize), ()>)
        ensures
            match r {
                Ok((rec, next)) => parse_record_at(bytes@, pos as int) == Some((rec@, next as int)),
                Err(_) => parse_record_at(bytes@, pos as int) is None,
            },
    {
        let n = bytes.len();
        if pos > n || n - pos < 11 || bytes[pos] != RECORD_PRESENT {
            return Err(());
        }
        let hs = slice_subrange(bytes, pos + 1, pos + 9);
        let h = u64_from_le_bytes(hs);
        let kls = slice_subrange(bytes, pos + 9, pos + 11);
        let kl = u16_from_le_bytes(kls) as usize;
        let ks = pos + 11;
        if n - ks < kl + 2 {
            return Err(());
        }
        let vls = slice_subrange(bytes, ks + kl, ks + kl + 2);
        let vl = u16_from_le_bytes(vls) as usize;
        let vs = ks + kl + 2;
        if n - vs < vl {
            return Err(());
        }
        let key = copy_range(bytes, ks, ks + kl);
        let value = copy_range(bytes, vs, vs + vl);
        Ok((Record(h, key, value), vs + vl))
    }
}

} // verus!
