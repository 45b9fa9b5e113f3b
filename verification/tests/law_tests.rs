use bencoderus::{decode, encode, Bencoding};

fn sample() -> Bencoding {
    Bencoding::Dictionary(vec![
        (b"".to_vec(), Bencoding::Integer(0)),
        (b"list".to_vec(), Bencoding::List(vec![
            Bencoding::List(vec![]),
            Bencoding::List(vec![Bencoding::ByteString(b"e".to_vec())]),
            Bencoding::Dictionary(vec![]),
            Bencoding::Integer(42),
        ])),
        (b"name".to_vec(), Bencoding::ByteString(b"spam:eggs".to_vec())),
    ])
}

#[test]
fn decode_of_encode_gives_back_the_value() {
    let bytes = encode(sample());
    assert_eq!(decode(bytes), sample());
}

#[test]
fn decode_of_encode_ignores_what_follows() {
    let mut bytes = encode(sample());
    bytes.extend_from_slice(b"i7etrailing");
    assert_eq!(decode(bytes), sample());
}

#[test]
fn encode_of_decode_gives_back_canonical_bytes() {
    let input = b"d4:infod6:lengthi1024e4:name8:file.txte5:peersl4:abcd4:efghee".to_vec();
    let value = decode(input.clone());
    assert!(value.is_encodable());
    assert_eq!(encode(value), input);
}

#[test]
fn decoded_dictionaries_hold_each_key_once_in_order() {
    let value = decode(b"d1:ai1e1:ai2e1:bd1:xi1e1:xi3eee".to_vec());
    assert_eq!(
        value,
        Bencoding::Dictionary(vec![
            (b"a".to_vec(), Bencoding::Integer(2)),
            (b"b".to_vec(), Bencoding::Dictionary(vec![(b"x".to_vec(), Bencoding::Integer(3))])),
        ])
    );
    assert!(value.is_encodable());
}

#[test]
fn decode_of_encode_gives_the_sorted_dictionary() {
    let unsorted = Bencoding::Dictionary(vec![
        (b"b".to_vec(), Bencoding::List(vec![Bencoding::Dictionary(vec![
            (b"y".to_vec(), Bencoding::Integer(1)),
            (b"x".to_vec(), Bencoding::Integer(2)),
        ])])),
        (b"a".to_vec(), Bencoding::Integer(3)),
    ]);
    let sorted = Bencoding::Dictionary(vec![
        (b"a".to_vec(), Bencoding::Integer(3)),
        (b"b".to_vec(), Bencoding::List(vec![Bencoding::Dictionary(vec![
            (b"x".to_vec(), Bencoding::Integer(2)),
            (b"y".to_vec(), Bencoding::Integer(1)),
        ])])),
    ]);
    assert_eq!(decode(encode(unsorted)), sorted);
}

#[test]
fn encode_ignores_entry_order_and_keeps_the_last_of_equal_keys() {
    let shuffled = Bencoding::Dictionary(vec![
        (b"b".to_vec(), Bencoding::Integer(1)),
        (b"a".to_vec(), Bencoding::Integer(9)),
        (b"a".to_vec(), Bencoding::Integer(2)),
    ]);
    let normal = Bencoding::Dictionary(vec![
        (b"a".to_vec(), Bencoding::Integer(2)),
        (b"b".to_vec(), Bencoding::Integer(1)),
    ]);
    let bytes = encode(shuffled);
    assert_eq!(bytes, encode(normal));
    let decoded = decode(bytes.clone());
    assert_eq!(encode(decoded), bytes);
}
