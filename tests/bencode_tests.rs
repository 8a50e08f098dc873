use torrent::bencode::{decode, encode, BencodeVal, DecodeErrorKind};

fn kind_of(input: &[u8]) -> DecodeErrorKind {
    match decode(input) {
        Err(e) => e.kind,
        Ok(_) => panic!("expected an error"),
    }
}

#[test]
fn int_forty_two() {
    let (v, n) = decode(b"i42e").unwrap();
    assert_eq!(n, 4);
    match v {
        BencodeVal::Int { index, int, size } => {
            assert_eq!(index, 0);
            assert_eq!(int, 42);
            assert_eq!(size, 4);
        }
        _ => panic!("not an integer"),
    }
}

#[test]
fn negative_int() {
    let (v, n) = decode(b"i-17e").unwrap();
    assert_eq!(n, 5);
    assert!(matches!(v, BencodeVal::Int { int: -17, .. }));
}

#[test]
fn int_extremes() {
    let (v, _) = decode(b"i9223372036854775807e").unwrap();
    assert!(matches!(v, BencodeVal::Int { int: i64::MAX, .. }));
    let (v, _) = decode(b"i-9223372036854775808e").unwrap();
    assert!(matches!(v, BencodeVal::Int { int: i64::MIN, .. }));
    assert_eq!(kind_of(b"i9223372036854775808e"), DecodeErrorKind::Overflow);
}

#[test]
fn zero_and_bad_zeros() {
    let (v, n) = decode(b"i0e").unwrap();
    assert_eq!(n, 3);
    assert!(matches!(v, BencodeVal::Int { int: 0, .. }));
    assert_eq!(kind_of(b"i-0e"), DecodeErrorKind::NegativeZero);
    assert_eq!(kind_of(b"i01e"), DecodeErrorKind::LeadingZero);
}

#[test]
fn empty_string() {
    let (v, n) = decode(b"0:").unwrap();
    assert_eq!(n, 2);
    match v {
        BencodeVal::Str { byte_str, size, .. } => {
            assert!(byte_str.is_empty());
            assert_eq!(size, 2);
        }
        _ => panic!("not a string"),
    }
}

#[test]
fn empty_containers() {
    let (v, n) = decode(b"le").unwrap();
    assert_eq!(n, 2);
    match v {
        BencodeVal::List { list, size, .. } => {
            assert!(list.is_empty());
            assert_eq!(size, 2);
        }
        _ => panic!("not a list"),
    }
    let (v, n) = decode(b"de").unwrap();
    assert_eq!(n, 2);
    match v {
        BencodeVal::Dict { dict, size, .. } => {
            assert!(dict.is_empty());
            assert_eq!(size, 2);
        }
        _ => panic!("not a dict"),
    }
}

#[test]
fn list_of_ints() {
    let (v, n) = decode(b"li1ei2ei3ee").unwrap();
    assert_eq!(n, 11);
    match v {
        BencodeVal::List { list, .. } => {
            let ints: Vec<i64> = list
                .iter()
                .map(|x| match x {
                    BencodeVal::Int { int, .. } => *int,
                    _ => panic!("not an integer"),
                })
                .collect();
            assert_eq!(ints, vec![1, 2, 3]);
            let starts: Vec<usize> = list.iter().map(|x| x.index()).collect();
            assert_eq!(starts, vec![1, 4, 7]);
        }
        _ => panic!("not a list"),
    }
}

#[test]
fn dict_of_strings() {
    let (v, n) = decode(b"d3:cow3:moo4:spam4:eggse").unwrap();
    assert_eq!(n, 24);
    match v {
        BencodeVal::Dict { dict, .. } => {
            assert_eq!(dict.len(), 2);
            assert_eq!(dict[0].0, b"cow".to_vec());
            assert!(matches!(&dict[0].1, BencodeVal::Str { byte_str, .. } if byte_str == b"moo"));
            assert_eq!(dict[1].0, b"spam".to_vec());
            assert!(matches!(&dict[1].1, BencodeVal::Str { byte_str, .. } if byte_str == b"eggs"));
        }
        _ => panic!("not a dict"),
    }
}

#[test]
fn info_dict_offsets() {
    let input = b"d4:infod1:xi1eee";
    let (v, n) = decode(input).unwrap();
    assert_eq!(n, 16);
    match v {
        BencodeVal::Dict { dict, .. } => {
            let info = &dict[0].1;
            assert_eq!(info.index(), 7);
            assert_eq!(info.size(), 8);
            assert_eq!(&input[7..15], b"d1:xi1ee");
        }
        _ => panic!("not a dict"),
    }
}

#[test]
fn round_trip() {
    let inputs: Vec<&[u8]> = vec![
        b"i42e",
        b"i-3e",
        b"0:",
        b"le",
        b"de",
        b"li1ei2ei3ee",
        b"d3:cow3:moo4:spam4:eggse",
        b"d4:infod1:xi1eee",
        b"l5:helloli-10eded3:keyl0:eeee",
    ];
    for input in inputs {
        let (v, n) = decode(input).unwrap();
        assert_eq!(n, input.len());
        assert_eq!(encode(&v), input.to_vec());
    }
}

#[test]
fn recorded_ranges_reencode() {
    let input = b"l5:helloli-10eded3:keyl0:eeee";
    let (v, _) = decode(input).unwrap();
    fn check(v: &BencodeVal, input: &[u8]) {
        let range = &input[v.index()..v.index() + v.size()];
        assert_eq!(encode(v), range.to_vec());
        let (again, n) = decode(range).unwrap();
        assert_eq!(n, range.len());
        assert_eq!(encode(&again), range.to_vec());
        match v {
            BencodeVal::List { list, .. } => list.iter().for_each(|c| check(c, input)),
            BencodeVal::Dict { dict, .. } => dict.iter().for_each(|(_, c)| check(c, input)),
            _ => {}
        }
    }
    check(&v, input);
}

#[test]
fn trailing_bytes_not_consumed() {
    let (_, n) = decode(b"i1eXYZ").unwrap();
    assert_eq!(n, 3);
}

#[test]
fn decode_errors() {
    assert_eq!(kind_of(b""), DecodeErrorKind::Eof);
    assert_eq!(kind_of(b"x"), DecodeErrorKind::UnexpectedByte);
    assert_eq!(kind_of(b"i12"), DecodeErrorKind::Eof);
    assert_eq!(kind_of(b"i1xe"), DecodeErrorKind::UnexpectedByte);
    assert_eq!(kind_of(b"5:ab"), DecodeErrorKind::Eof);
    assert_eq!(kind_of(b"3abc"), DecodeErrorKind::UnexpectedByte);
    assert_eq!(kind_of(b"03:abc"), DecodeErrorKind::LeadingZero);
    assert_eq!(kind_of(b"li1e"), DecodeErrorKind::Eof);
    assert_eq!(kind_of(b"lxe"), DecodeErrorKind::UnexpectedByte);
    assert_eq!(kind_of(b"di1ei2ee"), DecodeErrorKind::UnexpectedByte);
    assert_eq!(kind_of(b"d1:a"), DecodeErrorKind::Eof);
    assert_eq!(kind_of(b"d1:ai1e1:ai2ee"), DecodeErrorKind::DuplicateKey);
    let e = decode(b"li1ex").unwrap_err();
    assert_eq!(e.pos, 4);
}
