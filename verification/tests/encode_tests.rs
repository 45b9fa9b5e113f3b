use bencoderus::{decode, encode, run, Bencoding};

struct TestCase {
    input: Vec<u8>,
}

#[test]
fn test_run() {
    run();
    assert!(true);
}

#[test]
fn test_encode_number() {
    let test_cases: Vec<TestCase> = vec![
        TestCase { input: vec![105, 49, 50, 51, 101] },
        TestCase { input: vec![105, 57, 56, 55, 101] },
    ];
    for t in test_cases {
        println!("test number encode...");
        let decode_input = t.input.clone();
        let test_input = t.input.clone();
        let benc = decode(decode_input);
        assert_eq!(benc, Bencoding::Integer(if test_input[1] == 49 { 123 } else { 987 }));
        let num = encode(benc);
        println!("expect: {:?} ; got: {:?}", test_input, num);
        assert!(test_input == num);
    }
}

#[test]
fn test_encode_bytestring() {
    let test_cases: Vec<TestCase> = vec![
        TestCase { input: vec![51, 58, 117, 118, 119] },
        TestCase { input: vec![51, 58, 120, 121, 122] },
    ];
    let expected = ["uvw", "xyz"];
    for (t, e) in test_cases.into_iter().zip(expected.iter()) {
        let decode_input = t.input.clone();
        let test_input = t.input.clone();
        let benc = decode(decode_input);
        assert_eq!(benc, Bencoding::ByteString(e.to_string().into_bytes()));
        let s = encode(benc);
        assert!(test_input == s);
    }
}

#[test]
fn test_encode_list() {
    let test_cases: Vec<TestCase> = vec![TestCase { input: "l5:ItemA5:ItemBe".to_string().into_bytes() }];
    for t in test_cases {
        let decode_input = t.input.clone();
        let test_input = t.input.clone();
        let benc = decode(decode_input);
        assert_eq!(
            benc,
            Bencoding::List(vec![
                Bencoding::ByteString("ItemA".to_string().into_bytes()),
                Bencoding::ByteString("ItemB".to_string().into_bytes()),
            ])
        );
        let s = encode(benc);
        assert!(test_input == s);
    }
}

#[test]
fn test_encode_dictionary() {
    let test_cases: Vec<TestCase> = vec![TestCase {
        input: "d8:announce33:http://192.168.1.74:6969/announce7:comment17:This is a commente"
            .to_string()
            .into_bytes(),
    }];
    for t in test_cases {
        let decode_input = t.input.clone();
        let test_input = t.input.clone();
        let benc = decode(decode_input);
        assert_eq!(
            benc,
            Bencoding::Dictionary(vec![
                (
                    "announce".to_string().into_bytes(),
                    Bencoding::ByteString("http://192.168.1.74:6969/announce".to_string().into_bytes())
                ),
                ("comment".to_string().into_bytes(), Bencoding::ByteString("This is a comment".to_string().into_bytes())),
            ])
        );
        let s = encode(benc);
        assert!(test_input == s);
    }
}

#[test]
fn encode_formulas() {
    assert_eq!(encode(Bencoding::Integer(0)), b"i0e".to_vec());
    assert_eq!(encode(Bencoding::Integer(u64::MAX)), b"i18446744073709551615e".to_vec());
    assert_eq!(encode(Bencoding::ByteString(vec![])), b"0:".to_vec());
    assert_eq!(encode(Bencoding::ByteString(vec![0; 10])), [b"10:".to_vec(), vec![0; 10]].concat());
    assert_eq!(encode(Bencoding::List(vec![])), b"le".to_vec());
    assert_eq!(encode(Bencoding::Dictionary(vec![])), b"de".to_vec());
    let nested = Bencoding::Dictionary(vec![
        (b"a".to_vec(), Bencoding::List(vec![Bencoding::Integer(1), Bencoding::ByteString(b"x".to_vec())])),
        (b"b".to_vec(), Bencoding::Dictionary(vec![(b"c".to_vec(), Bencoding::Integer(2))])),
    ]);
    assert_eq!(encode(nested), b"d1:ali1e1:xe1:bd1:ci2eee".to_vec());
}

#[test]
fn is_encodable_cases() {
    assert!(Bencoding::Integer(3).is_encodable());
    assert!(!Bencoding::Eof.is_encodable());
    assert!(!Bencoding::List(vec![Bencoding::Eof]).is_encodable());
    let unsorted = Bencoding::Dictionary(vec![
        (b"b".to_vec(), Bencoding::Integer(1)),
        (b"a".to_vec(), Bencoding::Integer(2)),
    ]);
    assert!(unsorted.is_encodable());
    let with_eof = Bencoding::Dictionary(vec![
        (b"a".to_vec(), Bencoding::Integer(1)),
        (b"ab".to_vec(), Bencoding::Eof),
    ]);
    assert!(!with_eof.is_encodable());
}

#[test]
fn encode_sorts_dictionary_keys() {
    let unsorted = Bencoding::Dictionary(vec![
        (b"zeta".to_vec(), Bencoding::Integer(1)),
        (b"alpha".to_vec(), Bencoding::Integer(2)),
        (b"al".to_vec(), Bencoding::Integer(3)),
    ]);
    assert_eq!(encode(unsorted), b"d2:ali3e5:alphai2e4:zetai1ee".to_vec());
    // Of the entries with equal keys, the later one is written.
    let twice = Bencoding::Dictionary(vec![
        (b"b".to_vec(), Bencoding::Integer(1)),
        (b"a".to_vec(), Bencoding::Integer(2)),
        (b"b".to_vec(), Bencoding::Integer(3)),
    ]);
    assert_eq!(encode(twice), b"d1:ai2e1:bi3ee".to_vec());
}
