use core::fmt::Write;

use microstr::utf8_truncator;
use microstr::MicroStr;

#[test]
fn new() {
    let s: MicroStr<10> = MicroStr::new();
    assert_eq!(s.as_str(), "");
    assert_eq!(s.len(), 0);
}

#[test]
fn from_str() {
    let s = MicroStr::<15>::from_str("Hello, world").expect("Unreachable");
    assert_eq!(s.as_str(), "Hello, world");

    let (s, bytes) = MicroStr::<15>::from_str("Привет, мир").unwrap_err();
    assert_eq!(s.as_str(), "Привет, ");
    assert_eq!(bytes, 14);
}

#[test]
fn from_const() {
    let s = MicroStr::<15>::from_const("Constant");
    assert_eq!(s.as_str(), "Constant");
}

#[test]
fn from_raw_buffer() {
    let buffer = [b'R', b'a', b'w'];
    let s = MicroStr::<8>::from_raw_buffer(buffer);
    assert_eq!(s.as_str(), "Raw");
}

#[test]
fn from_str_unchecked() {
    let s = MicroStr::<15>::from_str_unchecked("Hello, world");
    assert_eq!(s.as_str(), "Hello, world");
}

#[test]
fn constants_and_variables() {
    let s = MicroStr::<10>::from_const("Кот");

    assert_eq!(s.capacity(), 10);
    assert_eq!(s.len(), 3);
    assert_eq!(s.bytes_len(), 6);
    assert_eq!(s.extra_capacity(), 4);
    assert!(!s.is_empty());

    let s = MicroStr::<10>::new();
    assert!(s.is_empty());
}

#[test]
fn push_char() {
    let mut s = MicroStr::<6>::new();

    assert_eq!(s.push('a'), Ok(()));
    assert_eq!(s.push('👿'), Ok(()));
    assert_eq!(s.push('ш'), Err(()));
    assert_eq!(s.as_str(), "a👿");

    let mut s = MicroStr::<4>::new();
    s.push_unchecked('🦀');
    assert_eq!(s.as_str(), "🦀");
}

#[test]
fn push_str() {
    let mut s = MicroStr::<15>::from_const("Hello, ");
    assert_eq!(s.push_str("world!"), Ok(()));
    assert_eq!(s.as_str(), "Hello, world!");
    assert_eq!(s.push_str(" NOT FIT"), Err(2));
    assert_eq!(s.as_str(), "Hello, world! N");
}

#[test]
fn bytes() {
    let mut s = MicroStr::<10>::from_const("Rust?");
    assert_eq!(s.as_bytes(), &[b'R', b'u', b's', b't', b'?'][..]);
    s.as_mut_bytes()[4] = b'!';
    assert_eq!(s.as_str(), "Rust!");
}

#[test]
fn into_raw_buffer() {
    let s = MicroStr::<4>::from_const("RAW");
    let buf = s.into_raw_buffer();

    assert_eq!(buf, [b'R', b'A', b'W', 0]);
}

#[test]
fn clear() {
    let mut s = MicroStr::<18>::from_str_unchecked("Dαηίlα Mίητ");
    assert_eq!(s.bytes_len(), "Dαηίlα Mίητ".len());
    assert_eq!(s.as_str(), "Dαηίlα Mίητ");
    s.clear();
    assert_eq!(s.as_str(), "");
    assert_eq!(s.len(), 0);
}

#[test]
fn truncate() {
    let mut s = MicroStr::<21>::from_str_unchecked("Номер 1234567890");
    assert_eq!(s.bytes_len(), "Номер 1234567890".len());
    assert_eq!(s.extra_capacity(), 0);
    s.truncate(11);
    assert_eq!(s.as_str(), "Номер 12345");
}

#[test]
fn default() {
    let s: MicroStr<10> = MicroStr::default();
    assert_eq!(s.as_str(), "");
    assert_eq!(s.len(), 0);
}

#[test]
fn compare() {
    let s1 = MicroStr::<5>::from_const("hello");
    let s2 = MicroStr::<10>::from_const("hello");
    let s3 = MicroStr::<5>::from_const("world");

    assert_eq!(s1, s2);
    assert_ne!(s1, s3);
    assert_ne!(s2, s3);
}

#[test]
fn deref() {
    let s = MicroStr::<15>::from_const("Hello");

    assert!(s.is_ascii());
    assert_eq!(s.to_ascii_uppercase(), "HELLO");
}

#[test]
fn truncator() {
    let s = "Hello, world";
    assert_eq!(utf8_truncator(s, 0), 0);
    assert_eq!(utf8_truncator(s, 20), 12);
    assert_eq!(utf8_truncator(s, 10), 10);

    let s = "Привет, мир";
    assert_eq!(utf8_truncator(s, 10), 10);
    assert_eq!(utf8_truncator(s, 11), 10);
    assert_eq!(utf8_truncator(s, 12), 12);
    assert_eq!(utf8_truncator(s, 13), 13);

    let s = "你好，世界";
    assert_eq!(utf8_truncator(s, 3), 3);
    assert_eq!(utf8_truncator(s, 4), 3);
    assert_eq!(utf8_truncator(s, 5), 3);
    assert_eq!(utf8_truncator(s, 6), 6);

    let s = "🔥🦀❗️";
    assert_eq!(utf8_truncator(s, 3), 0);
    assert_eq!(utf8_truncator(s, 4), 4);
    assert_eq!(utf8_truncator(s, 5), 4);
    assert_eq!(utf8_truncator(s, 6), 4);
    assert_eq!(utf8_truncator(s, 7), 4);
    assert_eq!(utf8_truncator(s, 8), 8);
}

#[test]
fn output() {
    let s = MicroStr::<25>::from_const("Some Output");
    assert_eq!(format!("{:?}", s), "MicroStr<25>{\"Some Output\"}");
    assert_eq!(format!("{}", s), "Some Output");
}

#[test]
fn string() {
    let string = String::from("Heap Allocated!");

    let s = MicroStr::<20>::from(string);

    assert_eq!(s.as_str(), "Heap Allocated!");

    let return_string = String::from(s);

    assert_eq!(return_string, "Heap Allocated!");
}

#[test]
fn fmt() {
    let mut s = MicroStr::<50>::from_const("");
    assert_eq!(s.write_char('a'), Ok(()));
    assert_eq!(s.write_str("bcdef"), Ok(()));
    assert_eq!(s.write_str("; var = 10"), Ok(()));

    assert_eq!(s.as_str(), "abcdef; var = 10");
}
