use silly_rusty_kv::bucket::Bucket;
use silly_rusty_kv::bytes::{ByteLength, IntoBytes, ParseFromBytes};
use silly_rusty_kv::command::{DeleteCommand, Mutation, PutCommand};
use silly_rusty_kv::record::Record;

#[test]
fn codec_traits_agree_with_the_layouts() {
    let r = Record(3, vec![1, 2], vec![9]);
    assert_eq!(ByteLength::byte_len(&r), 16);
    let bytes = IntoBytes::into_bytes(r.clone());
    let (back, next) = <Record as ParseFromBytes>::from_bytes(&bytes, 0, ()).unwrap();
    assert_eq!(back, r);
    assert_eq!(next, 16);

    let m = Mutation::Delete(DeleteCommand("k".into()));
    assert_eq!(ByteLength::byte_len(&m), 3);
    let bytes = IntoBytes::into_bytes(m.clone());
    assert_eq!(bytes, vec![1, 1, b'k']);
    assert_eq!(<Mutation as ParseFromBytes>::from_bytes(&bytes, 0, ()), Ok((m, 3)));
    assert_eq!(ByteLength::byte_len(&PutCommand("ab".into(), "c".into())), 7);
    assert_eq!(IntoBytes::into_bytes(DeleteCommand("ab".into())), vec![1, 2, b'a', b'b']);
}

#[test]
fn bucket_parses_from_an_offset() {
    let mut b = Bucket { bucket_index: 4, level: 2, remaining_byte_space: 0, records: vec![Record(6, vec![7], vec![8])] };
    b.update_remaining_byte_count();
    let mut file = vec![0xee; 4];
    file.extend(b.to_page());
    let (parsed, next) = <Bucket as ParseFromBytes>::from_bytes(&file, 4, 4).unwrap();
    assert_eq!(parsed, b);
    assert_eq!(next, 4 + 4096);
    assert!(<Bucket as ParseFromBytes>::from_bytes(&file, 5, 4).is_err());
}
