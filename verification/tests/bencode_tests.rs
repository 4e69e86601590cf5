use rbt::bencode::types::{BencodeDecoder, BencodeEncoder, BencodeItem, TryAsRef};
use rbt::bencode::{deserialize, Bencode};
use rbt::outcome::Overrun;

#[allow(non_camel_case_types)]
type de = BencodeDecoder;
#[allow(non_camel_case_types)]
type en = BencodeEncoder;

fn test_decode_n_encode(from: &[u8]) {
    let item = de::decode(from).unwrap();
    let item = en::encode(&item);
    assert_eq!(from, item);
}

#[test]
fn test_try_decode_i64() {
    assert_eq!(None, i64::try_decode(""));
    assert_eq!(None, i64::try_decode("i"));
    assert_eq!(None, i64::try_decode("i-"));
    assert_eq!(None, i64::try_decode("i-123-11-"));
    assert_eq!(None, i64::try_decode("ie"));
    assert_eq!(None, i64::try_decode("i-e"));
    assert_eq!(Some(0), i64::try_decode("i0e"));
    assert_eq!(Some(123), i64::try_decode("i123e"));
    assert_eq!(Some(-23), i64::try_decode("i-23e"));
}

#[test]
fn test_try_decode_string() {
    assert_eq!(None, String::try_decode(""));
    assert_eq!(None, String::try_decode("5:abcd"));
    assert_eq!(None, String::try_decode("-4:abcd"));
    assert_eq!(Some("abcd".to_string()), String::try_decode("4:abcd"));
    assert_eq!(Some("".to_string()), String::try_decode("0:"));
    assert_eq!(Some("A".to_string()), String::try_decode("1:A"));
    assert_eq!(Some("A".to_string()), String::try_decode("1:ABCDE"));
}

#[test]
fn test_decode_n_encode_num() {
    assert_eq!(None, de::decode(b""));
    assert_eq!(None, de::decode(b"i"));
    assert_eq!(None, de::decode(b"i-"));
    assert_eq!(None, de::decode(b"i-e"));
    assert_eq!(None, de::decode(b"ie"));
    assert_eq!(None, de::decode(b"i----132e"));
    test_decode_n_encode(b"i43e");
    test_decode_n_encode(b"i-3e");
}

#[test]
fn test_decode_n_encode_bin_or_str() {
    assert_eq!(None, de::decode(b"4:123"));
    assert_eq!(None, de::decode(b"4:"));
    test_decode_n_encode(b"4:1234");
}

#[test]
fn test_decode_n_encode_list() {
    test_decode_n_encode(b"le");
    test_decode_n_encode(b"li42ee");
    test_decode_n_encode(b"l4:teste");
    test_decode_n_encode(b"li1e5:helloe");
    test_decode_n_encode(b"lli1e6:nestede4:liste");
}

#[test]
fn test_decode_n_encode_pair() {
    test_decode_n_encode(b"de");
    test_decode_n_encode(b"d4:wiki7:bencode7:meaningi42ee");
    test_decode_n_encode(b"d4:listli1e4:str2d4:wiki7:bencode7:meaningi42eeee");
}

#[test]
fn decode_gives_the_values() {
    assert_eq!(Some(BencodeItem::Num(-7)), de::decode(b"i-7e"));
    assert_eq!(Some(BencodeItem::Bin(b"spam".to_vec())), de::decode(b"4:spam"));
    assert_eq!(
        Some(BencodeItem::List(vec![BencodeItem::Num(1), BencodeItem::Bin(b"ab".to_vec())])),
        de::decode(b"li1e2:abe")
    );
    assert_eq!(
        Some(BencodeItem::Pair(vec![(String::from("k"), BencodeItem::Num(5))])),
        de::decode(b"d1:ki5ee")
    );
}

#[test]
fn decode_reads_only_the_first_value() {
    assert_eq!(Some(BencodeItem::Num(1)), de::decode(b"i1ei2e"));
    assert_eq!(Some(BencodeItem::Bin(b"ab".to_vec())), de::decode(b"2:abcd"));
}

#[test]
fn decode_ends_lists_at_the_end_of_input() {
    assert_eq!(Some(BencodeItem::List(vec![])), de::decode(b"l"));
    assert_eq!(Some(BencodeItem::Pair(vec![])), de::decode(b"d"));
    assert_eq!(Some(BencodeItem::List(vec![BencodeItem::Num(1)])), de::decode(b"li1e"));
}

#[test]
fn decode_refuses_malformed_input() {
    assert_eq!(None, de::decode(b"di1ei2ee"));
    assert_eq!(None, de::decode(b"d2:\xff\xfei1ee"));
    assert_eq!(None, de::decode(b"x"));
}

#[test]
fn try_decode_tells_overruns() {
    assert_eq!(Err(Overrun), de::try_decode(b"lli1e"));
    assert_eq!(Ok(Some(BencodeItem::Num(3))), de::try_decode(b"i3e"));
    assert_eq!(Ok(None), de::try_decode(b"i3"));
}

#[test]
fn encode_writes_canonical_bencoding() {
    assert_eq!(b"i0e".to_vec(), en::encode(&BencodeItem::Num(0)));
    assert_eq!(b"i-42e".to_vec(), en::encode(&BencodeItem::Num(-42)));
    assert_eq!(b"3:abc".to_vec(), en::encode(&BencodeItem::Str(String::from("abc"))));
    assert_eq!(b"0:".to_vec(), en::encode(&BencodeItem::Bin(vec![])));
    let item = BencodeItem::Pair(vec![
        (String::from("a"), BencodeItem::List(vec![BencodeItem::Num(1), BencodeItem::Num(2)])),
        (String::from("b"), BencodeItem::Str(String::from("x"))),
    ]);
    assert_eq!(b"d1:ali1ei2ee1:b1:xe".to_vec(), en::encode(&item));
}

#[test]
fn decoding_an_encoding_gives_the_value_back() {
    let item = BencodeItem::List(vec![
        BencodeItem::Num(i64::MIN),
        BencodeItem::Str(String::from("text")),
        BencodeItem::Pair(vec![(String::from("k"), BencodeItem::Bin(vec![0, 255]))]),
    ]);
    let bytes = en::encode(&item);
    let back = de::decode(&bytes).unwrap();
    assert_eq!(
        BencodeItem::List(vec![
            BencodeItem::Num(i64::MIN),
            BencodeItem::Bin(b"text".to_vec()),
            BencodeItem::Pair(vec![(String::from("k"), BencodeItem::Bin(vec![0, 255]))]),
        ]),
        back
    );
    assert_eq!(bytes, en::encode(&back));
}

#[test]
fn try_into_and_try_as_ref() {
    assert_eq!(Ok(String::from("ab")), BencodeItem::Bin(b"ab".to_vec()).try_into());
    assert_eq!(Ok(String::from("cd")), BencodeItem::Str(String::from("cd")).try_into());
    assert!(BencodeItem::Bin(vec![0xff]).try_into().is_err());
    assert_eq!(
        Err(String::from("Cannot convert to String, wrong BencodeItem")),
        BencodeItem::Num(1).try_into()
    );
    let s = BencodeItem::Str(String::from("q"));
    let text: Option<&str> = s.try_as_ref();
    assert_eq!(Some("q"), text);
    let list: Option<&Vec<BencodeItem>> = s.try_as_ref();
    assert_eq!(None, list);
}

#[test]
fn bsize_is_the_length_of_the_bencoding() {
    assert_eq!(3, 0i64.bsize());
    assert_eq!(5, (-23i64).bsize());
    assert_eq!(21, i64::MAX.bsize());
    assert_eq!(6, String::from("abcd").bsize());
    assert_eq!(2, String::new().bsize());
    assert_eq!(13, String::from("0123456789").bsize());
}

#[test]
fn try_decode_reads_back_what_bsize_measures() {
    assert_eq!(Some(-9_000_000_000i64), i64::try_decode("i-9000000000e"));
    assert_eq!(Some(String::from("héllo")), String::try_decode("6:héllo"));
    assert_eq!(None, i64::try_decode("i9223372036854775808e"));
    assert_eq!(Some(42i64), deserialize::<i64>("xx i42e"));
    assert_eq!(Some(String::from("ab")), deserialize::<String>("2:ab"));
}

#[test]
fn try_decode_ignores_what_follows_the_bencoding() {
    assert_eq!(Some(-23), i64::try_decode("i-23eXYZ"));
    assert_eq!(Some(7), i64::try_decode("i7ei8e"));
    assert_eq!(Some(String::from("abc")), String::try_decode("3:abcrest"));
    assert_eq!(Some(String::from("ab")), String::try_decode("2:ab2:cd"));
}
