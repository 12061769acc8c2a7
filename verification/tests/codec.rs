use network_flow::graph::Graph;
use network_flow::io::decimal::{get_decimal, put_decimal};
use network_flow::io::{BitIO, StrIO};

#[test]
fn numbers_as_bytes() {
    assert_eq!(0x0102u16.to_bit(), vec![1, 2]);
    assert_eq!((-2i32).to_bit(), vec![0xff, 0xff, 0xff, 0xfe]);
    assert_eq!(258usize.to_bit(), vec![0, 0, 0, 0, 0, 0, 1, 2]);
    assert_eq!((-1isize).to_bit(), vec![0xff; 8]);
    assert_eq!(u128::MAX.to_bit(), vec![0xff; 16]);
    assert_eq!(i8::MIN.to_bit(), vec![0x80]);
}

#[test]
fn numbers_from_bytes() {
    assert_eq!(u16::try_from_bit(&[1, 2]), Some(0x0102));
    assert_eq!(u16::try_from_bit(&[1, 2, 3]), Some(0x0102));
    assert_eq!(u16::try_from_bit(&[1]), None);
    assert_eq!(i32::try_from_bit(&[0xff, 0xff, 0xff, 0xfe]), Some(-2));
    assert_eq!(i64::try_from_bit(&i64::MIN.to_bit()), Some(i64::MIN));
    assert_eq!(i128::try_from_bit(&(-3i128).to_bit()), Some(-3));
    assert_eq!(usize::try_from_bit(&[0, 0, 0, 0, 0, 0, 1, 2]), Some(258));
    assert_eq!(isize::try_from_bit(&[0xff; 8]), Some(-1));
    assert_eq!(usize::try_from_bit(&[0; 7]), None);
}

#[test]
fn strings_as_bytes() {
    let s = String::from("h\u{e9}");
    assert_eq!(s.to_bit(), vec![0, 0, 0, 0, 0, 0, 0, 3, b'h', 0xc3, 0xa9]);
    assert_eq!(String::try_from_bit(&s.to_bit()), Some(s));
    assert_eq!(String::try_from_bit(&[0, 0, 0, 0, 0, 0, 0, 0]), Some(String::new()));
    // too short, and no UTF-8
    assert_eq!(String::try_from_bit(&[0, 0, 0, 0, 0, 0, 0, 2, b'h']), None);
    assert_eq!(String::try_from_bit(&[0, 0, 0, 0, 0, 0, 0, 1, 0xff]), None);
    assert_eq!(String::try_from_bit(&[0, 0, 0]), None);
}

#[test]
fn lists_as_bytes() {
    let v: Vec<u16> = vec![1, 0x0203];
    let bytes = v.to_bit();
    assert_eq!(
        bytes,
        vec![0, 0, 0, 0, 0, 0, 0, 2, 0, 0, 0, 0, 0, 0, 0, 2, 0, 1, 0, 0, 0, 0, 0, 0, 0, 2, 2, 3]
    );
    assert_eq!(Vec::<u16>::try_from_bit(&bytes), Some(v));
    assert_eq!(Vec::<u16>::try_from_bit(&bytes[..27]), None);
    let nested: Vec<Vec<String>> = vec![vec![String::from("a")], vec![]];
    assert_eq!(Vec::<Vec<String>>::try_from_bit(&nested.to_bit()), Some(nested));
}

#[test]
fn numbers_as_text() {
    assert_eq!(0u8.to_str(), "0");
    assert_eq!((-128i8).to_str(), "-128");
    assert_eq!(u128::MAX.to_str(), "340282366920938463463374607431768211455");
    assert_eq!(i128::MIN.to_str(), "-170141183460469231731687303715884105728");
    assert_eq!(String::from("x y").to_str(), "x y");
}

#[test]
fn numbers_from_text() {
    assert_eq!(<u8 as StrIO>::try_from_str("255"), Some(255));
    assert_eq!(<u8 as StrIO>::try_from_str("256"), None);
    assert_eq!(<i8 as StrIO>::try_from_str("-128"), Some(-128));
    assert_eq!(<i8 as StrIO>::try_from_str("-129"), None);
    assert_eq!(<u8 as StrIO>::try_from_str("-0"), None);
    assert_eq!(<u8 as StrIO>::try_from_str("007"), None);
    assert_eq!(<u8 as StrIO>::try_from_str(""), None);
    assert_eq!(<u8 as StrIO>::try_from_str("1 "), None);
    assert_eq!(<u8 as StrIO>::try_from_str("+1"), None);
    assert_eq!(<u128 as StrIO>::try_from_str("340282366920938463463374607431768211455"), Some(u128::MAX));
    assert_eq!(<u128 as StrIO>::try_from_str("340282366920938463463374607431768211456"), None);
    assert_eq!(<i128 as StrIO>::try_from_str("-170141183460469231731687303715884105728"), Some(i128::MIN));
    assert_eq!(<String as StrIO>::try_from_str("x y"), Some(String::from("x y")));
}

#[test]
fn decimal_in_the_middle_of_a_text() {
    let mut out = b"a=".to_vec();
    put_decimal(&-42i16, &mut out);
    out.push(b';');
    assert_eq!(out, b"a=-42;".to_vec());
    assert_eq!(get_decimal::<i16>(&out, 2), Some((-42, 5)));
    assert_eq!(get_decimal::<u16>(&out, 2), None);
    assert_eq!(get_decimal::<i16>(&out, 0), None);
    assert_eq!(get_decimal::<i16>(&out, 6), None);
}

#[test]
fn bytes_of_a_graph() {
    let mut g = Graph::<u8, u16, i8>::create_graph(&vec![7, 9]);
    g.add_edge2(0, 1, &5, &-1);
    let max = vec![0xffu8; 8];
    let word = |v: u8| vec![0, 0, 0, 0, 0, 0, 0, v];
    let arc = |from: u8, to: u8, next: Vec<u8>, opp: Vec<u8>, reversed: u8, cap: u8, cost: u8| {
        let mut r = vec![];
        r.extend(word(from));
        r.extend(word(to));
        r.extend(next);
        r.extend(opp);
        r.push(reversed);
        r.extend(word(2));
        r.extend(vec![0, cap]);
        r.extend(word(1));
        r.push(cost);
        r
    };
    let mut want = vec![];
    want.extend(word(2));
    want.extend(word(1));
    want.push(7);
    want.extend(word(1));
    want.push(9);
    want.extend(word(2));
    want.extend(arc(0, 1, max.clone(), word(1), 0, 5, 0xff));
    want.extend(arc(1, 0, max.clone(), word(0), 1, 0, 0xff));
    want.extend(word(2));
    want.extend(arc(0, 0, word(0), max.clone(), 0, 0, 0));
    want.extend(arc(1, 1, word(1), max.clone(), 0, 0, 0));
    assert_eq!(g.to_bytes(), want);
    let h = Graph::<u8, u16, i8>::try_from_bytes(&want).unwrap();
    assert_eq!(h.to_bytes(), want);
    assert_eq!(h.get_label(1), Some(&9));
}

#[test]
fn bytes_that_are_no_graph() {
    let mut g = Graph::<u8, u16, i8>::create_graph(&vec![7, 9]);
    g.add_edge2(0, 1, &5, &-1);
    let good = g.to_bytes();
    assert!(Graph::<u8, u16, i8>::try_from_bytes(&good).is_some());
    assert!(Graph::<u8, u16, i8>::try_from_bytes(&[]).is_none());
    assert!(Graph::<u8, u16, i8>::try_from_bytes(&good[..good.len() - 1]).is_none());
    // an arc that leads to a vertex that is not there
    let mut bad = good.clone();
    bad[8 + 9 + 9 + 8 + 15] = 2;
    assert!(Graph::<u8, u16, i8>::try_from_bytes(&bad).is_none());
    // a flag that is neither 0 nor 1
    let mut bad = good.clone();
    bad[8 + 9 + 9 + 8 + 32] = 2;
    assert!(Graph::<u8, u16, i8>::try_from_bytes(&bad).is_none());
    // a capacity of another type
    assert!(Graph::<u8, u32, i8>::try_from_bytes(&good).is_none());
}

#[test]
fn reading_what_is_there() {
    assert_eq!(u16::from_bit(&[1, 2, 3]), 0x0102);
    assert_eq!(i32::from_bit(&[0xff, 0xff, 0xff, 0xfe]), -2);
    assert_eq!(isize::from_bit(&[0xff; 8]), -1);
    let s = String::from("h\u{e9}");
    assert_eq!(String::from_bit(&s.to_bit()), s);
    let v: Vec<u16> = vec![1, 0x0203];
    assert_eq!(Vec::<u16>::from_bit(&v.to_bit()), v);
    assert_eq!(<u8 as StrIO>::from_str("255"), 255);
    assert_eq!(<i8 as StrIO>::from_str("-128"), -128);
    assert_eq!(<String as StrIO>::from_str("x y"), String::from("x y"));
}

#[test]
fn bytes_start_with_one_value() {
    // what follows the bytes of a value does not change what is read
    let mut bytes = String::from("ab").to_bit();
    bytes.extend([1, 2, 3]);
    assert_eq!(String::try_from_bit(&bytes), Some(String::from("ab")));
    let mut bytes = vec![7u8, 8].to_bit();
    bytes.push(0);
    assert_eq!(Vec::<u8>::try_from_bit(&bytes), Some(vec![7, 8]));
    assert_eq!(u8::try_from_bit(&[5, 6]), Some(5));
}

#[test]
fn graph_from_its_bytes() {
    let mut g = Graph::<u8, u16, i8>::create_graph(&vec![7, 9]);
    g.add_edge2(0, 1, &5, &-1);
    let bytes = g.to_bytes();
    let mut h = Graph::<u8, u16, i8>::from_bytes(&bytes);
    assert_eq!(h.to_bytes(), bytes);
    assert_eq!(h.mcmf(0, 1), (5, -5));
}

#[test]
fn bytes_behind_a_graph_are_not_read() {
    let mut g = Graph::<u8, u16, i8>::create_graph(&vec![7, 9]);
    g.add_edge2(0, 1, &5, &-1);
    let good = g.to_bytes();
    let mut long = good.clone();
    long.extend([0, 1, 2]);
    assert_eq!(Graph::<u8, u16, i8>::try_from_bytes(&long).unwrap().to_bytes(), good);
    assert_eq!(Graph::<u8, u16, i8>::from_bytes(&long).to_bytes(), good);
}
