use bencoderus::{
    decode, decode_byte_string_len, decode_number_unmarked, extract_byte_string_length, try_decode, Bencoding,
    ByteIter, DecodeError,
};

struct TestCase {
    input: Vec<u8>,
    expected: Bencoding,
}

fn entry(key: &str, value: Bencoding) -> (Vec<u8>, Bencoding) {
    (key.to_string().into_bytes(), value)
}

fn lookup<'a>(dict: &'a [(Vec<u8>, Bencoding)], key: &[u8]) -> &'a Bencoding {
    &dict.iter().find(|(k, _)| k.as_slice() == key).expect("no such key").1
}

#[test]
fn test_decode() {
    // d8:completei1e10:downloadedi0e10:incompletei0e8:intervali1924e12:min intervali962e5:peers6:V(ݓe
    let test_result: Vec<(Vec<u8>, Bencoding)> = vec![
        entry("complete", Bencoding::Integer(1)),
        entry("downloaded", Bencoding::Integer(0)),
        entry("incomplete", Bencoding::Integer(0)),
        entry("interval", Bencoding::Integer(1924)),
        entry("min interval", Bencoding::Integer(962)),
        entry("peers", Bencoding::ByteString(vec![31, 55, 16, 128, 221, 147])),
    ];

    let test_cases: Vec<TestCase> = vec![TestCase {
        input: vec![
            100, 56, 58, 99, 111, 109, 112, 108, 101, 116, 101, 105, 49, 101, 49, 48, 58, 100, 111, 119, 110, 108,
            111, 97, 100, 101, 100, 105, 48, 101, 49, 48, 58, 105, 110, 99, 111, 109, 112, 108, 101, 116, 101, 105,
            48, 101, 56, 58, 105, 110, 116, 101, 114, 118, 97, 108, 105, 49, 57, 50, 52, 101, 49, 50, 58, 109, 105,
            110, 32, 105, 110, 116, 101, 114, 118, 97, 108, 105, 57, 54, 50, 101, 53, 58, 112, 101, 101, 114, 115,
            54, 58, 31, 55, 16, 128, 221, 147, 101,
        ],
        expected: Bencoding::Dictionary(test_result),
    }];

    for t in test_cases {
        println!("test decode...");
        let benc = decode(t.input);
        println!("exp: {:?}", t.expected);
        println!("got: {:?}", benc);

        let dict_expect = match t.expected {
            Bencoding::Dictionary(ref v) => v,
            _ => panic!("fix your test"),
        };
        let dict_actual = match benc {
            Bencoding::Dictionary(ref v) => v,
            _ => panic!("fix your test"),
        };

        let mut pair_list_expect: Vec<(Vec<u8>, &Bencoding)> = dict_expect.iter().map(|(k, v)| (k.to_vec(), v)).collect();
        let mut pair_list_actual: Vec<(Vec<u8>, &Bencoding)> = dict_actual.iter().map(|(k, v)| (k.to_vec(), v)).collect();
        pair_list_expect.sort_by(|a, b| a.0.cmp(&b.0));
        pair_list_actual.sort_by(|a, b| a.0.cmp(&b.0));

        assert_eq!(pair_list_actual.len(), pair_list_expect.len());
        for i in 0..pair_list_actual.len() {
            assert_eq!(pair_list_actual[i].0, pair_list_expect[i].0);
            assert_eq!(pair_list_actual[i].1, pair_list_expect[i].1);
        }
    }
}

#[test]
fn test_decode_peers_compacted() {
    let test_cases: Vec<TestCase> = vec![TestCase {
        // d8:completei1e5:peers6:V(ݓe
        input: vec![
            100, 56, 58, 99, 111, 109, 112, 108, 101, 116, 101, 105, 49, 101, 53, 58, 112, 101, 101, 114, 115, 54,
            58, 86, 40, 221, 147, 101,
        ],
        expected: Bencoding::ByteString("V(ݓe".as_bytes().to_vec()),
    }];
    for t in test_cases {
        println!("test decode peers compacted...");
        let benc = decode(t.input);
        let d = match benc {
            Bencoding::Dictionary(ref d) => d,
            _ => panic!("test expected Bencoding::Dictionary"),
        };
        let dp = lookup(d, "peers".as_bytes());
        assert!(t.expected == *dp);
    }
}

#[test]
fn test_decode_number() {
    let test_cases: Vec<TestCase> = vec![
        TestCase { input: vec![105, 49, 50, 51, 101], expected: Bencoding::Integer(123) },
        TestCase { input: vec![105, 57, 56, 55, 101], expected: Bencoding::Integer(987) },
    ];
    for t in test_cases {
        println!("test number decode...");
        let benc = decode(t.input);
        assert!(t.expected == benc);
    }
}

#[test]
#[should_panic]
fn failing_test_decode_number() {
    let fail_test_cases: Vec<Vec<u8>> = vec![vec![105, 57, 56, 55]];
    for input in fail_test_cases {
        decode(input);
    }
}

#[test]
fn test_decode_byte_string_len() {
    struct LenCase {
        input: Vec<u8>,
        max: u8,
        expected: Bencoding,
    }

    let test_cases: Vec<LenCase> = vec![
        LenCase {
            input: vec![117, 118, 119, 120, 121, 122],
            max: 5,
            expected: Bencoding::ByteString("uvwxy".to_string().into_bytes()),
        },
        LenCase {
            input: vec![97, 98, 99, 100, 101, 102],
            max: 4,
            expected: Bencoding::ByteString("abcd".to_string().into_bytes()),
        },
    ];

    for t in test_cases {
        let mut iter = ByteIter::new(&t.input);
        let benc = decode_byte_string_len(&mut iter, t.max);
        let actual = match benc {
            Bencoding::ByteString(ref s) => s,
            _ => panic!("unexpected type"),
        };
        println!("expected: {:?}; got: {:?}", t.expected, actual);
        assert!(t.expected == benc);
    }
}

#[test]
fn test_decode_number_unmarked() {
    let test_cases: Vec<TestCase> = vec![
        TestCase { input: vec![51, 58, 117, 118, 119], expected: Bencoding::Integer(3) },
        TestCase { input: vec![54, 58, 117, 118, 119, 120, 121, 122], expected: Bencoding::Integer(6) },
    ];

    for t in test_cases {
        let mut iter = ByteIter::new(&t.input);
        let benc = decode_number_unmarked(&mut iter, 58);
        let actual = match benc {
            Bencoding::Integer(ref n) => n,
            _ => panic!("unexpected type"),
        };
        println!("expected: {:?}; got: {}", t.expected, actual);
        assert!(t.expected == benc);
    }
}

#[test]
fn test_extract_byte_string_length() {
    struct LengthCase {
        input: Vec<u8>,
        expected: u64,
    }

    let test_cases: Vec<LengthCase> = vec![
        LengthCase { input: vec![51, 58, 117, 118, 119], expected: 3 },
        LengthCase { input: vec![53, 58, 118, 119, 120, 121, 122], expected: 5 },
    ];

    for t in test_cases {
        let mut iter = ByteIter::new(&t.input);
        let actual = extract_byte_string_length(&mut iter);
        println!("expected: {:?}; got: {}", t.expected, actual);
        assert!(t.expected == actual);
    }
}

#[test]
fn test_decode_byte_string() {
    let test_cases: Vec<TestCase> = vec![
        TestCase {
            input: vec![51, 58, 117, 118, 119],
            expected: Bencoding::ByteString("uvw".to_string().into_bytes()),
        },
        TestCase {
            input: vec![51, 58, 120, 121, 122],
            expected: Bencoding::ByteString("xyz".to_string().into_bytes()),
        },
    ];

    for t in test_cases {
        let benc = decode(t.input);
        let actual = match benc {
            Bencoding::ByteString(ref s) => s,
            _ => panic!("unexpected type"),
        };
        println!("expected: {:?}; got: {:?}", t.expected, actual);
        assert!(t.expected == benc);
    }
}

#[test]
#[should_panic]
fn failing_test_decode_byte_string() {
    let test_cases: Vec<TestCase> = vec![
        TestCase { input: vec![65, 67, 69], expected: Bencoding::ByteString("ACE".to_string().into_bytes()) },
        TestCase { input: vec![69, 67, 65], expected: Bencoding::ByteString("ECA".to_string().into_bytes()) },
    ];

    for t in test_cases {
        let benc = decode(t.input);
        match benc {
            Bencoding::ByteString(ref s) => s,
            _ => panic!("unexpected type"),
        };
    }
}

#[test]
fn test_decode_list() {
    let test_cases: Vec<TestCase> = vec![TestCase {
        input: "l5:ItemA5:ItemBe".to_string().into_bytes(),
        expected: Bencoding::List(vec![
            Bencoding::ByteString("ItemA".to_string().into_bytes()),
            Bencoding::ByteString("ItemB".to_string().into_bytes()),
        ]),
    }];

    for t in test_cases {
        let benc = decode(t.input);
        let actual = match benc {
            Bencoding::List(ref v) => v,
            _ => panic!("unexpected type"),
        };
        println!("expected: {:?}; got: {:?}", t.expected, actual);
        assert!(t.expected == benc);
    }
}

#[test]
fn test_decode_dictionary() {
    let test_result: Vec<(Vec<u8>, Bencoding)> = vec![
        entry(
            "announce",
            Bencoding::ByteString("http://192.168.1.74:6969/announce".to_string().into_bytes()),
        ),
        entry("comment", Bencoding::ByteString("This is a comment".to_string().into_bytes())),
    ];
    let test_cases: Vec<TestCase> = vec![TestCase {
        input: "d8:announce33:http://192.168.1.74:6969/announce7:comment17:This is a commente"
            .to_string()
            .into_bytes(),
        expected: Bencoding::Dictionary(test_result),
    }];

    for t in test_cases {
        let benc = decode(t.input);
        let actual = match benc {
            Bencoding::Dictionary(ref v) => v,
            _ => panic!("unexpected type"),
        };
        println!("expected: {:?}; got: {:?}", t.expected, actual);
        assert!(t.expected == benc);
    }
}

#[test]
fn decode_empty_input_is_eof() {
    assert_eq!(try_decode(vec![]), Ok(Bencoding::Eof));
}

#[test]
fn decode_reads_only_the_first_value() {
    assert_eq!(try_decode(b"i1exyz".to_vec()), Ok(Bencoding::Integer(1)));
}

#[test]
fn decode_nested_lists() {
    let expected = Bencoding::List(vec![
        Bencoding::List(vec![Bencoding::ByteString(b"a".to_vec())]),
        Bencoding::ByteString(b"b".to_vec()),
    ]);
    assert_eq!(try_decode(b"ll1:ae1:be".to_vec()), Ok(expected));
}

#[test]
fn decode_empty_containers() {
    assert_eq!(try_decode(b"le".to_vec()), Ok(Bencoding::List(vec![])));
    assert_eq!(try_decode(b"de".to_vec()), Ok(Bencoding::Dictionary(vec![])));
}

#[test]
fn decode_number_text_quirks() {
    // Whitespace around the digits is trimmed, a leading `+` is taken, and `i` bytes are passed over.
    assert_eq!(try_decode(b"i 12 e".to_vec()), Ok(Bencoding::Integer(12)));
    assert_eq!(try_decode(b"i+5e".to_vec()), Ok(Bencoding::Integer(5)));
    assert_eq!(try_decode(b"i1i2e".to_vec()), Ok(Bencoding::Integer(12)));
    assert_eq!(try_decode(b"i007e".to_vec()), Ok(Bencoding::Integer(7)));
    assert_eq!(try_decode(b"i18446744073709551615e".to_vec()), Ok(Bencoding::Integer(u64::MAX)));
}

#[test]
fn decode_number_errors() {
    assert_eq!(try_decode(b"i987".to_vec()), Err(DecodeError::UnterminatedNumber));
    assert_eq!(try_decode(vec![105, 49, 255, 101]), Err(DecodeError::NonAsciiNumber));
    assert_eq!(try_decode(b"iabe".to_vec()), Err(DecodeError::InvalidNumber));
    assert_eq!(try_decode(b"i-3e".to_vec()), Err(DecodeError::InvalidNumber));
    assert_eq!(try_decode(b"ie".to_vec()), Err(DecodeError::InvalidNumber));
    assert_eq!(try_decode(b"i1 2e".to_vec()), Err(DecodeError::InvalidNumber));
    assert_eq!(try_decode(b"i18446744073709551616e".to_vec()), Err(DecodeError::InvalidNumber));
}

#[test]
fn decode_byte_string_errors_and_truncation() {
    assert_eq!(try_decode(vec![65, 67, 69]), Err(DecodeError::UnterminatedNumber));
    assert_eq!(try_decode(b"x:ab".to_vec()), Err(DecodeError::InvalidNumber));
    // Fewer bytes than announced: what is there is taken.
    assert_eq!(try_decode(b"5:ab".to_vec()), Ok(Bencoding::ByteString(b"ab".to_vec())));
    assert_eq!(try_decode(b"0:".to_vec()), Ok(Bencoding::ByteString(vec![])));
}

#[test]
fn decode_list_errors() {
    assert_eq!(try_decode(b"l1:a".to_vec()), Err(DecodeError::UnterminatedList));
    assert_eq!(try_decode(b"li1e".to_vec()), Err(DecodeError::UnterminatedList));
    assert_eq!(try_decode(b"li1xe".to_vec()), Err(DecodeError::InvalidNumber));
}

#[test]
fn decode_dictionary_keys() {
    assert_eq!(try_decode(b"d1:bi1e1:ai2ee".to_vec()), Err(DecodeError::UnsortedKeys));
    // A key that comes twice keeps its later value.
    assert_eq!(
        try_decode(b"d1:ai1e1:ai2ee".to_vec()),
        Ok(Bencoding::Dictionary(vec![(b"a".to_vec(), Bencoding::Integer(2))]))
    );
    // Keys compare as byte strings: a prefix comes first.
    assert_eq!(
        try_decode(b"d1:ai1e2:aai2ee".to_vec()),
        Ok(Bencoding::Dictionary(vec![(b"a".to_vec(), Bencoding::Integer(1)), (b"aa".to_vec(), Bencoding::Integer(2))]))
    );
    // A parse error inside the entries comes before the order check.
    assert_eq!(try_decode(b"d1:bi1e1:aixee".to_vec()), Err(DecodeError::InvalidNumber));
}

#[test]
fn decode_dictionary_at_end_of_input() {
    assert_eq!(
        try_decode(b"d1:ai1e".to_vec()),
        Ok(Bencoding::Dictionary(vec![(b"a".to_vec(), Bencoding::Integer(1))]))
    );
    assert_eq!(try_decode(b"d1:a".to_vec()), Ok(Bencoding::Dictionary(vec![(b"a".to_vec(), Bencoding::Eof)])));
}

#[test]
fn byte_iter_reads_forward() {
    let bytes = vec![1u8, 2, 3];
    let mut iter = ByteIter::new(&bytes);
    assert_eq!(iter.len(), 3);
    assert_eq!(iter.peek(), Some(1));
    assert_eq!(iter.next(), Some(1));
    assert_eq!(iter.next(), Some(2));
    assert_eq!(iter.len(), 1);
    assert_eq!(iter.next(), Some(3));
    assert_eq!(iter.peek(), None);
    assert_eq!(iter.next(), None);
}

#[test]
fn reading_numbers_moves_the_iterator() {
    let input = b"12:hello world!".to_vec();
    let mut iter = ByteIter::new(&input);
    assert_eq!(extract_byte_string_length(&mut iter), 12);
    assert_eq!(iter.peek(), Some(b'h'));
    let mut short = ByteIter::new(b"ab");
    assert_eq!(decode_byte_string_len(&mut short, 5), Bencoding::ByteString(b"ab".to_vec()));
    assert_eq!(short.peek(), None);
    assert_eq!(try_decode(b"12".to_vec()), Err(DecodeError::UnterminatedNumber));
}

#[test]
fn iter_print_advances() {
    let v: Vec<u32> = vec![7, 8];
    let mut it = v.iter();
    bencoderus::iter_print(&mut it);
    assert_eq!(it.next(), Some(&8));
}
