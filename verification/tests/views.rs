use core::fmt::Write;

use microstr::CapacityError;
use microstr::MicroStr;

#[test]
fn push_writes_the_encoding() {
    let mut s = MicroStr::<12>::new();
    assert_eq!(s.push('a'), Ok(()));
    assert_eq!(s.push('é'), Ok(()));
    assert_eq!(s.push('河'), Ok(()));
    assert_eq!(s.push('🌍'), Ok(()));
    assert_eq!(s.bytes_len(), 10);
    assert_eq!(s.len(), 4);
    assert_eq!(
        s.as_bytes(),
        &[b'a', 0xc3, 0xa9, 0xe6, 0xb2, 0xb3, 0xf0, 0x9f, 0x8c, 0x8d][..]
    );
    assert_eq!(s.push('河'), Err(()));
    assert_eq!(s.push('é'), Ok(()));
    assert_eq!(s.as_str(), "aé河🌍é");
    assert_eq!(s.extra_capacity(), 0);
    assert_eq!(s.push('a'), Err(()));
}

#[test]
fn unchecked_appends_write_behind_the_content() {
    let mut s = MicroStr::<8>::from_const("ab");
    s.push_str_unchecked("cd");
    s.push_unchecked('é');
    assert_eq!(s.as_str(), "abcdé");
    assert_eq!(s.into_raw_buffer(), [b'a', b'b', b'c', b'd', 0xc3, 0xa9, 0, 0]);
}

#[test]
fn append_writes_sentinel_behind_the_content() {
    let mut s = MicroStr::<6>::from_const("abcdef");
    s.truncate(1);
    assert_eq!(s.push_str("xy"), Ok(()));
    assert_eq!(s.as_str(), "axy");
    assert_eq!(s.as_storage_bytes(), &[b'a', b'x', b'y', 0, b'e', b'f'][..]);
    assert_eq!(s.push('z'), Ok(()));
    assert_eq!(s.as_storage_bytes(), &[b'a', b'x', b'y', b'z', 0, b'f'][..]);
    s.push_unchecked('!');
    assert_eq!(s.as_storage_bytes(), &[b'a', b'x', b'y', b'z', b'!', 0][..]);
    s.push_str_unchecked("?");
    assert_eq!(s.into_raw_buffer(), [b'a', b'x', b'y', b'z', b'!', b'?']);
}

#[test]
fn append_after_clear_is_terminated() {
    let mut s = MicroStr::<5>::from_const("Hello");
    s.clear();
    assert_eq!(s.as_storage_bytes(), &[0, b'e', b'l', b'l', b'o'][..]);
    assert_eq!(s.push_str("A"), Ok(()));
    assert_eq!(s.as_str(), "A");
    assert_eq!(s.as_storage_bytes(), &[b'A', 0, b'l', b'l', b'o'][..]);
    assert_eq!(s.push_str(""), Ok(()));
    assert_eq!(s.as_storage_bytes(), &[b'A', 0, b'l', b'l', b'o'][..]);
    assert_eq!(s.push('河'), Ok(()));
    assert_eq!(s.as_storage_bytes(), &[b'A', 0xe6, 0xb2, 0xb3, 0][..]);
    assert_eq!(s.push('é'), Err(()));
    assert_eq!(s.push_str("é"), Err(0));
    assert_eq!(s.as_storage_bytes(), &[b'A', 0xe6, 0xb2, 0xb3, 0][..]);
    assert_eq!(s.write_char('b'), Ok(()));
    assert_eq!(s.into_raw_buffer(), [b'A', 0xe6, 0xb2, 0xb3, b'b']);
}

#[test]
fn writing_keeps_the_sentinel() {
    let mut s = MicroStr::<6>::from_const("abcdef");
    s.truncate(0);
    assert_eq!(s.write_str("x"), Ok(()));
    assert_eq!(s.as_storage_bytes(), &[b'x', 0, b'c', b'd', b'e', b'f'][..]);
    assert_eq!(s.write_char('y'), Ok(()));
    assert_eq!(s.as_storage_bytes(), &[b'x', b'y', 0, b'd', b'e', b'f'][..]);
    assert_eq!(s.write_literal(Some("z")), Ok(()));
    assert_eq!(s.as_storage_bytes(), &[b'x', b'y', b'z', 0, b'e', b'f'][..]);
    assert_eq!(s.write_literal(None), Err(core::fmt::Error));
    assert_eq!(s.as_storage_bytes(), &[b'x', b'y', b'z', 0, b'e', b'f'][..]);
    s.as_mut_bytes()[0] = b'w';
    s.make_ascii_uppercase();
    assert_eq!(s.as_storage_bytes(), &[b'W', b'Y', b'Z', 0, b'e', b'f'][..]);
}

#[test]
fn truncate_is_noop_at_or_past_the_count() {
    let mut s = MicroStr::<6>::from_const("aé河");
    assert_eq!(s.bytes_len(), 6);
    assert_eq!(s.extra_capacity(), 0);
    let before = s.clone().into_raw_buffer();
    s.truncate(3);
    assert_eq!(s.as_str(), "aé河");
    s.truncate(4);
    s.truncate(usize::MAX);
    assert_eq!(s.as_str(), "aé河");
    assert_eq!(s.clone().into_raw_buffer(), before);
    let mut roomy = MicroStr::<9>::from_const("aé河");
    roomy.truncate(3);
    assert_eq!(roomy.as_str(), "aé河");
    assert_eq!(roomy.into_raw_buffer(), [b'a', 0xc3, 0xa9, 0xe6, 0xb2, 0xb3, 0, 0, 0]);
}

#[test]
fn truncate_cuts_at_character_index() {
    let mut s = MicroStr::<16>::from_const("aé河🌍z");
    s.truncate(4);
    assert_eq!(s.as_str(), "aé河🌍");
    s.truncate(2);
    assert_eq!(s.as_str(), "aé");
    assert_eq!(s.bytes_len(), 3);
    assert_eq!(s.as_bytes(), &[b'a', 0xc3, 0xa9][..]);
    s.truncate(0);
    assert_eq!(s.as_str(), "");
    assert!(s.is_empty());
    assert_eq!(s.into_raw_buffer()[0], 0);
}

#[test]
fn mutable_text_changes_the_content() {
    let mut s = MicroStr::<10>::from_const("Hello é");
    s.as_str_mut().make_ascii_uppercase();
    assert_eq!(s.as_str(), "HELLO é");
    assert_eq!(s.bytes_len(), 8);
    assert!(s.is_text());
}

#[test]
fn mutable_bytes_cover_the_content_only() {
    let mut s = MicroStr::<10>::from_const("abc");
    assert_eq!(s.as_mut_bytes().len(), 3);
    s.as_mut_bytes()[0] = b'x';
    assert_eq!(s.as_str(), "xbc");
    assert!(s.is_text());
    s.as_mut_bytes()[2] = 0xff;
    assert!(!s.is_text());
    assert_eq!(s.as_bytes(), &[b'x', b'b', 0xff][..]);
    assert_eq!(s.bytes_len(), 3);
}

#[test]
fn raw_constructors_copy_without_looking() {
    let whole = MicroStr::<10>::from_raw_buffer(*b"Hi");
    assert_eq!(whole.as_str(), "Hi");
    assert_eq!(whole.bytes_len(), 2);
    let cut = MicroStr::<5>::from_raw_buffer(*b"Hello, world!");
    assert_eq!(cut.as_str(), "Hello");
    assert_eq!(cut.into_raw_buffer(), *b"Hello");
    let split = MicroStr::<4>::from_raw_buffer([b'a', b'b', b'c', 0xe6, 0xb2, 0xb3]);
    assert!(!split.is_text());
    assert_eq!(split.as_bytes(), &[b'a', b'b', b'c', 0xe6][..]);
    let split_text = MicroStr::<4>::from_str_unchecked("abc河");
    assert!(!split_text.is_text());
    assert_eq!(split_text.bytes_len(), 4);
    let kept = MicroStr::<4>::from_const("abc河");
    assert!(kept.is_text());
    assert_eq!(kept.as_str(), "abc");
}

#[test]
fn terminated_buffer_ends_at_first_zero() {
    let s = MicroStr::<6>::from_terminated_buffer([b'a', b'b', 0, b'c', 0, b'd']);
    assert_eq!(s.as_str(), "ab");
    assert_eq!(s.bytes_len(), 2);
    assert_eq!(s.into_raw_buffer(), [b'a', b'b', 0, b'c', 0, b'd']);
    let full = MicroStr::<3>::from_terminated_buffer(*b"abc");
    assert_eq!(full.as_str(), "abc");
    assert_eq!(full.extra_capacity(), 0);
    let none = MicroStr::<3>::from_terminated_buffer([0, b'b', b'c']);
    assert!(none.is_empty());
    let wide = MicroStr::<5>::from_terminated_buffer([0xe6, 0xb2, 0xb3, 0, 0]);
    assert_eq!(wide.as_str(), "河");
    let broken = MicroStr::<3>::from_terminated_buffer([0xe6, 0xb2, 0]);
    assert!(!broken.is_text());
    assert_eq!(broken.bytes_len(), 2);
    let nothing = MicroStr::<0>::from_terminated_buffer([]);
    assert!(nothing.is_empty());
}

#[test]
fn printed_forms() {
    let s = MicroStr::<10>::from_const("test");
    assert_eq!(s.debug_string(), "MicroStr<10>{\"test\"}");
    assert_eq!(s.to_string(), "test");
    let quoted = MicroStr::<128>::from_const("a\"b\\é");
    assert_eq!(quoted.debug_string(), "MicroStr<128>{\"a\"b\\é\"}");
    assert_eq!(quoted.to_string(), "a\"b\\é");
    let empty = MicroStr::<0>::new();
    assert_eq!(empty.debug_string(), "MicroStr<0>{\"\"}");
    assert_eq!(empty.to_string(), "");
}

#[test]
fn from_heap_string_truncates() {
    let s: MicroStr<5> = MicroStr::from(String::from("Hello world"));
    assert_eq!(s.as_str(), "Hello");
    let t: MicroStr<4> = MicroStr::from(String::from("ab河"));
    assert_eq!(t.as_str(), "ab");
    assert_eq!(t.into_raw_buffer(), [b'a', b'b', 0, 0]);
    let u: MicroStr<8> = String::from("ab河").into();
    assert_eq!(u.as_str(), "ab河");
}

#[test]
fn clone_copies_storage_and_length() {
    let mut s = MicroStr::<6>::from_const("abcdef");
    s.truncate(2);
    let c = s.clone();
    assert_eq!(c, s);
    assert_eq!(c.bytes_len(), 2);
    assert_eq!(c.into_raw_buffer(), s.into_raw_buffer());
}

#[test]
fn strict_construction_refuses_long_text() {
    let fits = MicroStr::<6>::try_from_str("aé河").expect("six bytes fit into six");
    assert_eq!(fits.as_str(), "aé河");
    assert_eq!(
        MicroStr::<5>::try_from_str("aé河").unwrap_err(),
        CapacityError { needed: 6, capacity: 5 }
    );
    assert_eq!(
        MicroStr::<0>::try_from_str("a").unwrap_err(),
        CapacityError { needed: 1, capacity: 0 }
    );
    assert!(MicroStr::<0>::try_from_str("").is_ok());
}

#[test]
fn writing_fails_where_text_does_not_fit() {
    let mut s = MicroStr::<4>::new();
    assert_eq!(s.write_str("ab"), Ok(()));
    assert_eq!(s.write_char('é'), Ok(()));
    assert_eq!(s.write_char('x'), Err(core::fmt::Error));
    assert_eq!(s.as_str(), "abé");
    let mut t = MicroStr::<4>::new();
    assert_eq!(t.write_str("ab河"), Err(core::fmt::Error));
    assert_eq!(t.as_str(), "ab");
    assert_eq!(t.write_str(""), Ok(()));
    assert_eq!(t.write_str("cd"), Ok(()));
    assert_eq!(t.write_str("e"), Err(core::fmt::Error));
    assert_eq!(t.as_str(), "abcd");
}

#[test]
fn format_string_with_arguments_is_refused() {
    let mut s = MicroStr::<6>::from_const("ab");
    assert_eq!(s.write_literal(None), Err(core::fmt::Error));
    assert_eq!(s.as_str(), "ab");
    assert_eq!(s.write_literal(Some("cd")), Ok(()));
    assert_eq!(s.as_str(), "abcd");
    assert_eq!(s.write_literal(Some("河")), Err(core::fmt::Error));
    assert_eq!(s.as_str(), "abcd");
    assert_eq!(s.write_literal(Some("ef河")), Err(core::fmt::Error));
    assert_eq!(s.as_str(), "abcdef");
    assert_eq!(s.write_literal(Some("")), Ok(()));
    assert_eq!(s.write_literal(None), Err(core::fmt::Error));
    assert_eq!(s.as_str(), "abcdef");
}

#[test]
fn printing_shows_the_text() {
    let s = MicroStr::<10>::from_const("aé\"河");
    assert_eq!(format!("{}", s), "aé\"河");
    assert_eq!(format!("{:?}", s), "MicroStr<10>{\"aé\"河\"}");
    assert_eq!(format!("{:?}", s), s.debug_string());
    assert_eq!(format!("{}", s), s.to_string());
}

#[test]
fn dereferences_to_text() {
    let mut s = MicroStr::<10>::from_const("rust é");
    assert!(s.starts_with("ru"));
    assert_eq!(s.find('é'), Some(5));
    assert_eq!(&*s, "rust é");
    s.make_ascii_uppercase();
    assert_eq!(s.as_str(), "RUST é");
    assert_eq!(s.bytes_len(), 7);
    assert_eq!(s.len(), 6);
}

#[test]
fn broken_content_has_no_text() {
    let mut s = MicroStr::<4>::from_raw_buffer([b'a', 0xff, b'b']);
    assert!(!s.is_text());
    assert_eq!(&*s, "");
    assert_eq!(&mut *s, "");
    s.make_ascii_uppercase();
    assert_eq!(s.as_bytes(), &[b'a', 0xff, b'b'][..]);
    assert_eq!(s.clone().into_raw_buffer(), [b'a', 0xff, b'b', 0]);
    assert_eq!(String::from(s.clone()), "");
    s.as_mut_bytes()[1] = b'x';
    assert!(s.is_text());
    assert_eq!(&*s, "axb");
    assert_eq!(String::from(s), "axb");
}

#[test]
fn into_heap_string() {
    let s = MicroStr::<10>::from_const("Rust河");
    let owned: String = s.clone().into();
    assert_eq!(owned, "Rust河");
    assert_eq!(String::from(s), "Rust河");
    assert_eq!(String::from(MicroStr::<0>::new()), "");
}
