//! Commands, their results, and the byte format of staged mutations.
use crate::record::append_bytes;
use crate::text::{lemma_text_round_trip, text_bytes, text_equal, text_from_bytes};
use vstd::bytes::{spec_u16_from_le_bytes, spec_u16_to_le_bytes, u16_from_le_bytes, u16_to_le_bytes};
use vstd::prelude::*;
use vstd::slice::slice_subrange;
use vstd::utf8::{decode_utf8, encode_utf8, valid_utf8};

verus! {

/// Store `1` under key `0`.
#[derive(Debug, Clone, PartialEq)]
pub struct PutCommand(pub String, pub String);

/// Remove key `0`.
#[derive(Debug, Clone, PartialEq)]
pub struct DeleteCommand(pub String);

/// Read key `0`.
#[derive(Debug, Clone, PartialEq)]
pub struct GetCommand(pub String);

/// A change staged in a transaction.
#[derive(Debug, Clone, PartialEq)]
pub enum Mutation {
    Put(PutCommand),
    Delete(DeleteCommand),
}

/// A command of a client.
#[derive(Debug, Clone, PartialEq)]
pub enum Command {
    Put(PutCommand),
    Delete(DeleteCommand),
    Get(GetCommand),
    Begin,
    Commit,
    Rollback,
    Exit,
}

/// A command for the hash engine alone.
#[derive(Debug, Clone, PartialEq)]
pub enum StorageCommand {
    Put(PutCommand),
    Delete(DeleteCommand),
    Get(GetCommand),
    Flush,
}

/// The answer to a command.
#[derive(Debug, Clone, PartialEq)]
pub enum CommandOutput {
    Found(String),
    NotFound(String),
    Put,
    Delete,
    Begin(String),
    Commit,
    Rollback,
    Exit,
}

/// A mutation as plain values: whether it puts, its key, and the value put
/// (empty for a delete).
pub type MutationModel = (bool, Seq<char>, Seq<char>);

impl View for Mutation {
    type V = MutationModel;

    open spec fn view(&self) -> MutationModel {
        match self {
            Mutation::Put(PutCommand(k, v)) => (true, k@, v@),
            Mutation::Delete(DeleteCommand(k)) => (false, k@, Seq::empty()),
        }
    }
}

/// What a list of mutations holds.
pub open spec fn mutations_model(ms: Seq<Mutation>) -> Seq<MutationModel> {
    ms.map_values(|m: Mutation| m@)
}

/// What the newest mutation of `key` says: `Some(Some(v))` after a put of
/// `v`, `Some(None)` after a delete, `None` where no mutation names `key`.
pub open spec fn staged_value(ms: Seq<MutationModel>, key: Seq<char>) -> Option<Option<Seq<char>>>
    decreases ms.len(),
{
    if ms.len() == 0 {
        None
    } else if ms.last().1 == key {
        if ms.last().0 {
            Some(Some(ms.last().2))
        } else {
            Some(None)
        }
    } else {
        staged_value(ms.drop_last(), key)
    }
}

/// The value that a list of mutations leaves for `key`, `None` where none
/// puts it or the newest deletes it.
pub open spec fn final_value(ms: Seq<MutationModel>, key: Seq<char>) -> Option<Seq<char>> {
    match staged_value(ms, key) {
        Some(v) => v,
        None => None,
    }
}

/// A mutation can be written when the key takes at most 255 bytes and the
/// value at most 65535.
pub open spec fn mutation_encodable(m: MutationModel) -> bool {
    encode_utf8(m.1).len() <= 255 && encode_utf8(m.2).len() <= 65535
}

/// The bytes of a mutation: a put is `2`, the key length (one byte), the
/// value length (two bytes, little-endian), key, value; a delete is `1`,
/// the key length, key.
pub open spec fn mutation_bytes(m: MutationModel) -> Seq<u8> {
    let kb = encode_utf8(m.1);
    let vb = encode_utf8(m.2);
    if m.0 {
        seq![2u8, kb.len() as u8] + spec_u16_to_le_bytes(vb.len() as u16) + kb + vb
    } else {
        seq![1u8, kb.len() as u8] + kb
    }
}

/// The text encoded by `s[from..to]`, if those bytes are in range and valid.
pub open spec fn text_at(s: Seq<u8>, from: int, to: int) -> Option<Seq<char>> {
    if 0 <= from <= to <= s.len() && valid_utf8(s.subrange(from, to)) {
        Some(decode_utf8(s.subrange(from, to)))
    } else {
        None
    }
}

/// The mutation that starts at offset `i` of `s`, with the offset just
/// past it.
pub open spec fn parse_mutation_at(s: Seq<u8>, i: int) -> Option<(MutationModel, int)> {
    if 0 <= i && i + 2 <= s.len() && s[i] == 1 {
        let ke = i + 2 + s[i + 1] as int;
        match text_at(s, i + 2, ke) {
            Some(k) => Some(((false, k, Seq::empty()), ke)),
            None => None,
        }
    } else if 0 <= i && i + 4 <= s.len() && s[i] == 2 {
        let ke = i + 4 + s[i + 1] as int;
        let ve = ke + spec_u16_from_le_bytes(s.subrange(i + 2, i + 4)) as int;
        match (text_at(s, i + 4, ke), text_at(s, ke, ve)) {
            (Some(k), Some(v)) => Some(((true, k, v), ve)),
            _ => None,
        }
    } else {
        None
    }
}

/// The mutations read one after the other from offset `i`, up to the
/// first that cannot be read.
pub open spec fn parse_mutations(s: Seq<u8>, i: int) -> Seq<MutationModel>
    decreases s.len() - i,
{
    match parse_mutation_at(s, i) {
        Some((m, j)) => if i < j <= s.len() {
            seq![m] + parse_mutations(s, j)
        } else {
            Seq::empty()
        },
        None => Seq::empty(),
    }
}

/// A mutation read back from its own bytes, with anything after them.
pub proof fn lemma_mutation_round_trip(m: MutationModel, rest: Seq<u8>)
    requires
        mutation_encodable(m),
        !m.0 ==> m.2 == Seq::<char>::empty(),
    ensures
        parse_mutation_at(mutation_bytes(m) + rest, 0) == Some((m, mutation_bytes(m).len() as int)),
{
    vstd::bytes::lemma_auto_spec_u16_to_from_le_bytes();
    lemma_text_round_trip(m.1);
    lemma_text_round_trip(m.2);
    let kb = encode_utf8(m.1);
    let vb = encode_utf8(m.2);
    let kl = kb.len() as int;
    let vl = vb.len() as int;
    let s = mutation_bytes(m) + rest;
    if m.0 {
        assert(s.subrange(2, 4) =~= spec_u16_to_le_bytes(vb.len() as u16));
        assert(s.subrange(4, 4 + kl) =~= kb);
        assert(s.subrange(4 + kl, 4 + kl + vl) =~= vb);
    } else {
        assert(s.subrange(2, 2 + kl) =~= kb);
    }
}


/// The text in `bytes[from..to]`, if in range and valid.
fn text_in(bytes: &[u8], from: usize, to: usize) -> (r: Option<String>)
    ensures
        match r {
            Some(t) => text_at(bytes@, from as int, to as int) == Some(t@),
            None => text_at(bytes@, from as int, to as int) is None,
        },
{
    if from > to || to > bytes.len() {
        return None;
    }
    let v = crate::record::copy_range(bytes, from, to);
    text_from_bytes(v)
}

impl PutCommand {
    /// Length of the put once written.
    pub fn byte_len(&self) -> (r: usize)
        requires
            mutation_encodable((true, self.0@, self.1@)),
        ensures
            r == mutation_bytes((true, self.0@, self.1@)).len(),
    {
        let k = self.0.as_str().len();
        let v = self.1.as_str().len();
        proof {
            vstd::bytes::lemma_auto_spec_u16_to_from_le_bytes();
        }
        1 + 1 + 2 + k + v
    }

    /// Writes the put as bytes.
    pub fn into_bytes(self) -> (r: Vec<u8>)
        requires
            mutation_encodable((true, self.0@, self.1@)),
        ensures
            r@ == mutation_bytes((true, self.0@, self.1@)),
    {
        let kb = text_bytes(self.0.as_str());
        let vb = text_bytes(self.1.as_str());
        let mut out: Vec<u8> = Vec::new();
        out.push(2);
        out.push(kb.len() as u8);
        let vl = u16_to_le_bytes(vb.len() as u16);
        append_bytes(&mut out, vl.as_slice());
        append_bytes(&mut out, kb.as_slice());
        append_bytes(&mut out, vb.as_slice());
        assert(out@ =~= mutation_bytes((true, self.0@, self.1@)));
        out
    }

    /// Reads the body of a put (what follows its `2`) that starts at
    /// offset `pos`; on success also returns the offset just past it.
    pub fn from_bytes(bytes: &[u8], pos: usize) -> (r: Result<(PutCommand, usize), ()>)
        requires
            pos >= 1,
            pos <= bytes@.len(),
            bytes@[pos - 1] == 2,
        ensures
            match r {
                Ok((c, next)) => parse_mutation_at(bytes@, pos - 1) == Some(((true, c.0@, c.1@), next as int)),
                Err(_) => parse_mutation_at(bytes@, pos - 1) is None,
            },
    {
        if bytes.len() - pos < 3 {
            return Err(());
        }
        let kl = bytes[pos] as usize;
        let vl = u16_from_le_bytes(slice_subrange(bytes, pos + 1, pos + 3)) as usize;
        let ks = pos + 3;
        if bytes.len() - ks < kl || bytes.len() - ks - kl < vl {
            proof {
                vstd::bytes::lemma_auto_spec_u16_to_from_le_bytes();
                assert(bytes@.subrange(pos as int, pos + 3 as int).subrange(1, 3) =~= bytes@.subrange(pos + 1, pos + 3));
            }
            return Err(());
        }
        let key = text_in(bytes, ks, ks + kl);
        let value = text_in(bytes, ks + kl, ks + kl + vl);
        match (key, value) {
            (Some(k), Some(v)) => Ok((PutCommand(k, v), ks + kl + vl)),
            _ => Err(()),
        }
    }
}

impl DeleteCommand {
    /// Length of the delete once written.
    pub fn byte_len(&self) -> (r: usize)
        requires
            mutation_encodable((false, self.0@, Seq::empty())),
        ensures
            r == mutation_bytes((false, self.0@, Seq::empty())).len(),
    {
        1 + 1 + self.0.as_str().len()
    }

    /// Writes the delete as bytes.
    pub fn into_bytes(self) -> (r: Vec<u8>)
        requires
            mutation_encodable((false, self.0@, Seq::empty())),
        ensures
            r@ == mutation_bytes((false, self.0@, Seq::empty())),
    {
        let kb = text_bytes(self.0.as_str());
        let mut out: Vec<u8> = Vec::new();
        out.push(1);
        out.push(kb.len() as u8);
        append_bytes(&mut out, kb.as_slice());
        assert(out@ =~= mutation_bytes((false, self.0@, Seq::empty())));
        out
    }

    /// Reads the body of a delete (what follows its `1`) that starts at
    /// offset `pos`; on success also returns the offset just past it.
    pub fn from_bytes(bytes: &[u8], pos: usize) -> (r: Result<(DeleteCommand, usize), ()>)
        requires
            pos >= 1,
            pos <= bytes@.len(),
            bytes@[pos - 1] == 1,
        ensures
            match r {
                Ok((c, next)) => parse_mutation_at(bytes@, pos - 1) == Some(((false, c.0@, Seq::<char>::empty()), next as int)),
                Err(_) => parse_mutation_at(bytes@, pos - 1) is None,
            },
    {
        if bytes.len() - pos < 1 {
            return Err(());
        }
        let kl = bytes[pos] as usize;
        let ks = pos + 1;
        if bytes.len() - ks < kl {
            return Err(());
        }
        match text_in(bytes, ks, ks + kl) {
            Some(k) => Ok((DeleteCommand(k), ks + kl)),
            None => Err(()),
        }
    }
}

impl Mutation {
    /// A copy of the mutation.
    pub fn clone_mutation(&self) -> (r: Mutation)
        ensures
            r@ == self@,
    {
        match self {
            Mutation::Put(PutCommand(k, v)) => Mutation::Put(PutCommand(k.clone(), v.clone())),
            Mutation::Delete(DeleteCommand(k)) => Mutation::Delete(DeleteCommand(k.clone())),
        }
    }

    /// Length of the mutation once written.
    pub fn byte_len(&self) -> (r: usize)
        requires
            mutation_encodable(self@),
        ensures
            r == mutation_bytes(self@).len(),
    {
        match self {
            Mutation::Put(c) => c.byte_len(),
            Mutation::Delete(c) => c.byte_len(),
        }
    }

    /// Writes the mutation as bytes.
    pub fn into_bytes(self) -> (r: Vec<u8>)
        requires
            mutation_encodable(self@),
        ensures
            r@ == mutation_bytes(self@),
    {
        match self {
            Mutation::Put(c) => c.into_bytes(),
            Mutation::Delete(c) => c.into_bytes(),
        }
    }

    /// Reads the mutation that starts at offset `pos`; on success also
    /// returns the offset just past it.
    pub fn from_bytes(bytes: &[u8], pos: usize) -> (r: Result<(Mutation, usize), ()>)
        ensures
            match r {
                Ok((m, next)) => parse_mutation_at(bytes@, pos as int) == Some((m@, next as int)),
                Err(_) => parse_mutation_at(bytes@, pos as int) is None,
            },
    {
        if pos >= bytes.len() {
            return Err(());
        }
        let header = bytes[pos];
        if header == 1 {
            match DeleteCommand::from_bytes(bytes, pos + 1) {
                Ok((c, next)) => Ok((Mutation::Delete(c), next)),
                Err(_) => Err(()),
            }
        } else if header == 2 {
            match PutCommand::from_bytes(bytes, pos + 1) {
                Ok((c, next)) => Ok((Mutation::Put(c), next)),
                Err(_) => Err(()),
            }
        } else {
            Err(())
        }
    }
}

/// What the newest mutation of `key` says, over a list of mutations.
pub fn get_value_from_mutations_ref(muts: &Vec<Mutation>, key: &str) -> (r: Option<String>)
    ensures
        match r {
            Some(v) => final_value(mutations_model(muts@), key@) == Some(v@),
            None => final_value(mutations_model(muts@), key@) is None,
        },
{
    let mut value: Option<String> = None;
    let mut i: usize = 0;
    let ghost ms = mutations_model(muts@);
    while i < muts.len()
        invariant
            ms == mutations_model(muts@),
            i <= muts@.len(),
            match value {
                Some(v) => final_value(ms.subrange(0, i as int), key@) == Some(v@),
                None => final_value(ms.subrange(0, i as int), key@) is None,
            },
        decreases muts@.len() - i,
    {
        assert(ms.subrange(0, i + 1).drop_last() =~= ms.subrange(0, i as int));
        match &muts[i] {
            Mutation::Put(PutCommand(k, v)) => {
                if text_equal(k.as_str(), key) {
                    value = Some(v.clone());
                }
            },
            Mutation::Delete(DeleteCommand(k)) => {
                if text_equal(k.as_str(), key) {
                    value = None;
                }
            },
        }
        i = i + 1;
    }
    assert(ms.subrange(0, i as int) =~= ms);
    value
}

/// What the newest mutation of `key` says, consuming the list.
pub fn get_value_from_mutations(muts: Vec<Mutation>, key: &str) -> (r: Option<String>)
    ensures
        match r {
            Some(v) => final_value(mutations_model(muts@), key@) == Some(v@),
            None => final_value(mutations_model(muts@), key@) is None,
        },
{
    get_value_from_mutations_ref(&muts, key)
}

/// The mutations written one after the other in `bytes`, up to the first
/// that cannot be read.
pub fn parse_buffer_to_mutations(bytes: &[u8]) -> (r: Result<Vec<Mutation>, ()>)
    ensures
        r is Ok,
        r is Ok ==> mutations_model(r->Ok_0@) == parse_mutations(bytes@, 0),
{
    let mut out: Vec<Mutation> = Vec::new();
    let mut pos: usize = 0;
    let ghost s = bytes@;
    loop
        invariant
            s == bytes@,
            pos <= s.len(),
            parse_mutations(s, 0) == mutations_model(out@) + parse_mutations(s, pos as int),
        decreases s.len() - pos,
    {
        match Mutation::from_bytes(bytes, pos) {
            Ok((m, next)) => {
                if next <= pos || next > bytes.len() {
                    assert(parse_mutations(s, pos as int) =~= Seq::<MutationModel>::empty());
                    assert(mutations_model(out@) + Seq::<MutationModel>::empty() =~= mutations_model(out@));
                    return Ok(out);
                }
                let ghost before = mutations_model(out@);
                let ghost mv = m@;
                out.push(m);
                assert(mutations_model(out@) =~= before.push(mv));
                assert(before + parse_mutations(s, pos as int) =~= mutations_model(out@) + parse_mutations(s, next as int));
                pos = next;
            },
            Err(_) => {
                assert(parse_mutations(s, pos as int) =~= Seq::<MutationModel>::empty());
                assert(mutations_model(out@) + Seq::<MutationModel>::empty() =~= mutations_model(out@));
                return Ok(out);
            },
        }
    }
}

/// What the newest mutation of `key` written in `bytes` says.
pub fn get_value_from_buffer(bytes: &[u8], key: &str) -> (r: Result<Option<Option<String>>, ()>)
    ensures
        match r {
            Ok(Some(Some(v))) => staged_value(parse_mutations(bytes@, 0), key@) == Some(Some(v@)),
            Ok(Some(None)) => staged_value(parse_mutations(bytes@, 0), key@) == Some(None::<Seq<char>>),
            Ok(None) => staged_value(parse_mutations(bytes@, 0), key@) is None,
            Err(_) => false,
        },
{
    let muts = parse_buffer_to_mutations(bytes);
    let muts = match muts {
        Ok(m) => m,
        Err(_) => Vec::new(),
    };
    let mut value: Option<Option<String>> = None;
    let mut i: usize = 0;
    let ghost ms = mutations_model(muts@);
    while i < muts.len()
        invariant
            ms == mutations_model(muts@),
            ms == parse_mutations(bytes@, 0),
            i <= muts@.len(),
            match value {
                Some(Some(v)) => staged_value(ms.subrange(0, i as int), key@) == Some(Some(v@)),
                Some(None) => staged_value(ms.subrange(0, i as int), key@) == Some(None::<Seq<char>>),
                None => staged_value(ms.subrange(0, i as int), key@) is None,
            },
        decreases muts@.len() - i,
    {
        assert(ms.subrange(0, i + 1).drop_last() =~= ms.subrange(0, i as int));
        match &muts[i] {
            Mutation::Put(PutCommand(k, v)) => {
                if text_equal(k.as_str(), key) {
                    value = Some(Some(v.clone()));
                }
            },
            Mutation::Delete(DeleteCommand(k)) => {
                if text_equal(k.as_str(), key) {
                    value = Some(None);
                }
            },
        }
        i = i + 1;
    }
    assert(ms.subrange(0, i as int) =~= ms);
    Ok(value)
}

} // verus!
