use rbt::bencode::parse::{
    try_parse_list, try_parse_num, try_parse_pair, try_parse_str, BencodeExact, BencodeItem,
    BencodeParser, Pair, ParseAbort,
};

#[test]
fn test_try_parse_num() {
    assert_eq!(None, try_parse_num(b""));
    assert_eq!(None, try_parse_num(b"i"));
    assert_eq!(None, try_parse_num(b"i-"));
    assert_eq!(None, try_parse_num(b"i-123-11-"));
    assert_eq!(None, try_parse_num(b"ie"));
    assert_eq!(None, try_parse_num(b"i-e"));
    assert_eq!(Some(0), try_parse_num(b"i0e").unwrap().to_num());
    assert_eq!(Some(123), try_parse_num(b"i123e").unwrap().to_num());
    assert_eq!(Some(-23), try_parse_num(b"i-23e").unwrap().to_num());
    assert_eq!(b"i0e", try_parse_num(b"i0e").unwrap().from);
    assert_eq!(b"i123e", try_parse_num(b"i123e").unwrap().from);
    assert_eq!(b"i-23e", try_parse_num(b"i-23e").unwrap().from);
}

#[test]
fn test_try_parse_str() {
    assert_eq!(None, try_parse_str(b""));
    assert_eq!(None, try_parse_str(b"5:abcd"));
    assert_eq!(None, try_parse_str(b"-4:abcd"));
    assert_eq!(Some(&String::from("abcd")), try_parse_str(b"4:abcd").unwrap().to_str());
    assert_eq!(Some(&String::from("")), try_parse_str(b"0:").unwrap().to_str());
    assert_eq!(Some(&String::from("A")), try_parse_str(b"1:A").unwrap().to_str());
    assert_eq!(Some(&String::from("A")), try_parse_str(b"1:ABCDE").unwrap().to_str());
    assert_eq!(b"4:abcd", try_parse_str(b"4:abcd").unwrap().from);
    assert_eq!(b"1:A", try_parse_str(b"1:A").unwrap().from);
    assert_eq!(b"1:A", try_parse_str(b"1:ABCD").unwrap().from);
    assert_eq!(b"10:123456789A", try_parse_str(b"10:123456789A").unwrap().from);
}

#[test]
fn test_try_parse_list() {
    assert_eq!(None, try_parse_list(b""));
    assert_eq!(Some(&Box::new(vec![])), try_parse_list(b"le").unwrap().to_list());
    assert_eq!(
        Some(&Box::new(vec![BencodeItem::new_num(b"i42e", 42)])),
        try_parse_list(b"li42ee").unwrap().to_list()
    );
    assert_eq!(
        Some(&Box::new(vec![BencodeItem::new_bin(b"4:test", b"test")])),
        try_parse_list(b"l4:teste").unwrap().to_list()
    );
    assert_eq!(
        Some(&Box::new(vec![
            BencodeItem::new_num(b"i1e", 1),
            BencodeItem::new_bin(b"5:hello", b"hello")
        ])),
        try_parse_list(b"li1e5:helloe").unwrap().to_list()
    );
    assert_eq!(
        Some(&Box::new(vec![
            BencodeItem::new_list(
                b"li1e6:nestede",
                Box::new(vec![
                    BencodeItem::new_num(b"i1e", 1),
                    BencodeItem::new_bin(b"6:nested", b"nested")
                ])
            ),
            BencodeItem::new_bin(b"4:list", b"list"),
        ])),
        try_parse_list(b"lli1e6:nestede4:liste").unwrap().to_list()
    );
    assert_eq!(b"li1e5:helloe", try_parse_list(b"li1e5:helloe").unwrap().from);
    assert_eq!(b"lli1e6:nestede4:liste", try_parse_list(b"lli1e6:nestede4:liste").unwrap().from);
}

#[test]
fn test_try_parse_pair() {
    assert_eq!(None, try_parse_pair(b""));
    assert_eq!(Some(&Box::new(Pair::new())), try_parse_pair(b"de").unwrap().to_pair());
    let mut pair1 = Pair::new();
    pair1.insert(String::from("wiki"), BencodeItem::new_bin(b"7:bencode", b"bencode"));
    pair1.insert(String::from("meaning"), BencodeItem::new_num(b"i42e", 42));
    assert_eq!(
        Some(&Box::new(pair1.clone())),
        try_parse_pair(b"d4:wiki7:bencode7:meaningi42ee").unwrap().to_pair()
    );
    let mut pair2 = Pair::new();
    pair2.insert(
        String::from("list"),
        BencodeItem::new_list(
            b"li1e4:str2d4:wiki7:bencode7:meaningi42eee",
            Box::new(vec![
                BencodeItem::new_num(b"i1e", 1),
                BencodeItem::new_bin(b"4:str2", b"str2"),
                BencodeItem::new_pair(b"d4:wiki7:bencode7:meaningi42ee", Box::new(pair1)),
            ]),
        ),
    );
    assert_eq!(
        Some(&Box::new(pair2)),
        try_parse_pair(b"d4:listli1e4:str2d4:wiki7:bencode7:meaningi42eeee").unwrap().to_pair()
    );
    assert_eq!(
        b"d4:wiki7:bencode7:meaningi42ee",
        try_parse_pair(b"d4:wiki7:bencode7:meaningi42ee").unwrap().from
    );
    assert_eq!(
        b"d4:listli1e4:str2d4:wiki7:bencode7:meaningi42eeee",
        try_parse_pair(b"d4:listli1e4:str2d4:wiki7:bencode7:meaningi42eeee").unwrap().from
    );
}

#[test]
fn try_parse_chooses_by_the_first_byte() {
    let num = BencodeItem::try_parse(b"i7eXYZ").unwrap();
    assert_eq!(Some(7), num.to_num());
    assert_eq!(b"i7e", num.from);
    let bin = BencodeItem::try_parse(b"3:abcdef").unwrap();
    assert_eq!(Some(&b"abc"[..]), bin.to_bin());
    assert_eq!(b"3:abc", bin.from);
    assert_eq!(None, bin.to_str());
    assert_eq!(None, BencodeItem::try_parse(b""));
    assert_eq!(None, BencodeItem::try_parse(b"x"));
    assert_eq!(None, BencodeItem::try_parse(b"l"));
    assert_eq!(None, BencodeItem::try_parse(b"li1e"));
    assert_eq!(None, BencodeItem::try_parse(b"d3:keye"));
}

#[test]
fn try_parse_checked_tells_aborts() {
    assert_eq!(Err(ParseAbort), BencodeItem::try_parse_checked(b"\x01"));
    assert_eq!(Err(ParseAbort), BencodeItem::try_parse_checked(b"l \x00e"));
    assert_eq!(Err(ParseAbort), BencodeItem::try_parse_checked(b"d1:ai1e1:ai2ee"));
    assert_eq!(Ok(None), BencodeItem::try_parse_checked(b"d1:ai1e"));
    let ok = BencodeItem::try_parse_checked(b"d1:ai1e1:bi2ee").unwrap().unwrap();
    let pair = ok.to_pair().unwrap();
    assert_eq!(2, pair.len());
    assert_eq!(Some(2), pair.get("b").unwrap().to_num());
    assert!(pair.get("c").is_none());
}

#[test]
fn try_parse_num_finds_the_markers_anywhere() {
    let item = try_parse_num(b"xxi5eyy").unwrap();
    assert_eq!(Some(5), item.to_num());
    assert_eq!(b"i5e", item.from);
}

#[test]
fn pair_insert_replaces_and_get_finds() {
    let mut pair = Pair::new();
    assert_eq!(0, pair.len());
    assert!(pair.insert(String::from("a"), BencodeItem::new_num(b"i1e", 1)).is_none());
    assert!(pair.insert(String::from("b"), BencodeItem::new_num(b"i2e", 2)).is_none());
    let old = pair.insert(String::from("a"), BencodeItem::new_num(b"i3e", 3));
    assert_eq!(Some(BencodeItem::new_num(b"i1e", 1)), old);
    assert_eq!(2, pair.len());
    assert_eq!(Some(3), pair.get("a").unwrap().to_num());
    assert_eq!(Some(2), pair.get("b").unwrap().to_num());
    assert_eq!(String::from("a"), pair.entries()[0].0);
    assert_eq!(String::from("b"), pair.entries()[1].0);
}

#[test]
fn clones_are_equal() {
    let item = BencodeItem::try_parse(b"ld1:xli1eeee").unwrap();
    let copy = item.clone();
    assert_eq!(item, copy);
    match &copy.data {
        BencodeExact::List(l) => assert_eq!(1, l.len()),
        _ => panic!("a list was parsed"),
    }
    assert!(copy.hash.is_none());
}

#[test]
fn parser_starts_empty() {
    let parser = BencodeParser::new(b"i1e");
    assert_eq!(b"i1e", parser.from);
    assert!(parser.data.is_none());
}

#[test]
fn try_parse_num_ignores_what_follows() {
    let item = try_parse_num(b"i42e5:tail").unwrap();
    assert_eq!(BencodeItem::new_num(b"i42e", 42), item);
    let item = try_parse_num(b"i-9ei1e").unwrap();
    assert_eq!(BencodeItem::new_num(b"i-9e", -9), item);
}

#[test]
fn pair_keys_stay_distinct() {
    let mut pair = Pair::new();
    pair.insert(String::from("k"), BencodeItem::new_num(b"i1e", 1));
    pair.insert(String::from("k"), BencodeItem::new_num(b"i2e", 2));
    pair.insert(String::from("j"), BencodeItem::new_num(b"i3e", 3));
    pair.insert(String::from("k"), BencodeItem::new_num(b"i4e", 4));
    let keys: Vec<&str> = pair.entries().iter().map(|e| e.0.as_str()).collect();
    assert_eq!(vec!["k", "j"], keys);
    assert_eq!(Some(4), pair.get("k").unwrap().to_num());
}
