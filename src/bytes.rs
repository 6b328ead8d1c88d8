//! The codec capability shared by the record-like types: a written length,
//! a byte encoding, and a parse from a position in a byte string.
use crate::bucket::{parse_page, Bucket};
use crate::command::{
    mutation_bytes, mutation_encodable, parse_mutation_at, DeleteCommand, Mutation, PutCommand,
};
use crate::record::{parse_record_at, record_bytes, record_encodable, record_len, Record, PAGE_BYTES};
use vstd::prelude::*;
use vstd::slice::slice_subrange;

verus! {

/// A value with a written length.
pub trait ByteLength {
    /// Whether the value can be written.
    spec fn writable(&self) -> bool;

    /// The length of the value once written.
    spec fn written_len(&self) -> nat;

    fn byte_len(&self) -> (r: usize)
        requires
            self.writable(),
        ensures
            r == self.written_len(),
    ;
}

/// A value that can be written as bytes.
pub trait IntoBytes: Sized {
    /// Whether the value can be written.
    spec fn encodable(&self) -> bool;

    /// The bytes of the value.
    spec fn encoding(&self) -> Seq<u8>;

    fn into_bytes(self) -> (r: Vec<u8>)
        requires
            self.encodable(),
        ensures
            r@ == self.encoding(),
    ;
}

/// A value that can be read from a position in a byte string, given some
/// context of the read.
pub trait ParseFromBytes: Sized {
    type Metadata;

    /// Reading at `pos` gives `value` and ends at `next`.
    spec fn parses_as(bytes: Seq<u8>, pos: int, metadata: Self::Metadata, value: Self, next: int) -> bool;

    /// Nothing can be read at `pos`.
    spec fn parse_fails(bytes: Seq<u8>, pos: int, metadata: Self::Metadata) -> bool;

    fn from_bytes(bytes: &[u8], pos: usize, metadata: Self::Metadata) -> (r: Result<(Self, usize), ()>)
        ensures
            match r {
                Ok((v, next)) => Self::parses_as(bytes@, pos as int, metadata, v, next as int),
                Err(_) => Self::parse_fails(bytes@, pos as int, metadata),
            },
    ;
}

impl ByteLength for Record {
    open spec fn writable(&self) -> bool {
        record_encodable(self@)
    }

    open spec fn written_len(&self) -> nat {
        record_len(self@)
    }

    fn byte_len(&self) -> (r: usize) {
        Record::byte_len(self)
    }
}

impl IntoBytes for Record {
    open spec fn encodable(&self) -> bool {
        record_encodable(self@)
    }

    open spec fn encoding(&self) -> Seq<u8> {
        record_bytes(self@)
    }

    fn into_bytes(self) -> (r: Vec<u8>) {
        Record::into_bytes(self)
    }
}

impl ParseFromBytes for Record {
    type Metadata = ();

    open spec fn parses_as(bytes: Seq<u8>, pos: int, metadata: (), value: Record, next: int) -> bool {
        parse_record_at(bytes, pos) == Some((value@, next))
    }

    open spec fn parse_fails(bytes: Seq<u8>, pos: int, metadata: ()) -> bool {
        parse_record_at(bytes, pos) is None
    }

    fn from_bytes(bytes: &[u8], pos: usize, metadata: ()) -> (r: Result<(Record, usize), ()>) {
        Record::from_bytes(bytes, pos)
    }
}

impl ByteLength for PutCommand {
    open spec fn writable(&self) -> bool {
        mutation_encodable((true, self.0@, self.1@))
    }

    open spec fn written_len(&self) -> nat {
        mutation_bytes((true, self.0@, self.1@)).len()
    }

    fn byte_len(&self) -> (r: usize) {
        PutCommand::byte_len(self)
    }
}

impl IntoBytes for PutCommand {
    open spec fn encodable(&self) -> bool {
        mutation_encodable((true, self.0@, self.1@))
    }

    open spec fn encoding(&self) -> Seq<u8> {
        mutation_bytes((true, self.0@, self.1@))
    }

    fn into_bytes(self) -> (r: Vec<u8>) {
        PutCommand::into_bytes(self)
    }
}

impl ByteLength for DeleteCommand {
    open spec fn writable(&self) -> bool {
        mutation_encodable((false, self.0@, Seq::empty()))
    }

    open spec fn written_len(&self) -> nat {
        mutation_bytes((false, self.0@, Seq::empty())).len()
    }

    fn byte_len(&self) -> (r: usize) {
        DeleteCommand::byte_len(self)
    }
}

impl IntoBytes for DeleteCommand {
    open spec fn encodable(&self) -> bool {
        mutation_encodable((false, self.0@, Seq::empty()))
    }

    open spec fn encoding(&self) -> Seq<u8> {
        mutation_bytes((false, self.0@, Seq::empty()))
    }

    fn into_bytes(self) -> (r: Vec<u8>) {
        DeleteCommand::into_bytes(self)
    }
}

impl ByteLength for Mutation {
    open spec fn writable(&self) -> bool {
        mutation_encodable(self@)
    }

    open spec fn written_len(&self) -> nat {
        mutation_bytes(self@).len()
    }

    fn byte_len(&self) -> (r: usize) {
        Mutation::byte_len(self)
    }
}

impl IntoBytes for Mutation {
    open spec fn encodable(&self) -> bool {
        mutation_encodable(self@)
    }

    open spec fn encoding(&self) -> Seq<u8> {
        mutation_bytes(self@)
    }

    fn into_bytes(self) -> (r: Vec<u8>) {
        Mutation::into_bytes(self)
    }
}

impl ParseFromBytes for Mutation {
    type Metadata = ();

    open spec fn parses_as(bytes: Seq<u8>, pos: int, metadata: (), value: Mutation, next: int) -> bool {
        parse_mutation_at(bytes, pos) == Some((value@, next))
    }

    open spec fn parse_fails(bytes: Seq<u8>, pos: int, metadata: ()) -> bool {
        parse_mutation_at(bytes, pos) is None
    }

    fn from_bytes(bytes: &[u8], pos: usize, metadata: ()) -> (r: Result<(Mutation, usize), ()>) {
        Mutation::from_bytes(bytes, pos)
    }
}

impl ParseFromBytes for Bucket {
    /// The bucket's position in the buckets file.
    type Metadata = usize;

    open spec fn parses_as(bytes: Seq<u8>, pos: int, metadata: usize, value: Bucket, next: int) -> bool {
        &&& 0 <= pos
        &&& next == pos + PAGE_BYTES
        &&& next <= bytes.len()
        &&& parse_page(bytes.subrange(pos, next)) == Some((value.level, value.model()))
        &&& value.wf()
        &&& value.bucket_index == metadata
    }

    open spec fn parse_fails(bytes: Seq<u8>, pos: int, metadata: usize) -> bool {
        pos + PAGE_BYTES > bytes.len() || parse_page(bytes.subrange(pos, pos + PAGE_BYTES)) is None
    }

    fn from_bytes(bytes: &[u8], pos: usize, metadata: usize) -> (r: Result<(Bucket, usize), ()>) {
        if pos > bytes.len() || bytes.len() - pos < PAGE_BYTES {
            return Err(());
        }
        let page = slice_subrange(bytes, pos, pos + PAGE_BYTES);
        match Bucket::from_bytes(page, metadata) {
            Ok(b) => Ok((b, pos + PAGE_BYTES)),
            Err(_) => Err(()),
        }
    }
}

} // verus!
