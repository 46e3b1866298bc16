//! Text, numbers, addresses and order.

use throughline::addr::IpAddr;
use throughline::json;
use throughline::num::{dec_of, read_decimal, read_hexadecimal};
use throughline::order::sort;
use throughline::text;

#[test]
fn lines_are_read_as_they_are_written() {
    assert_eq!(text::lines_of("a\r\nb\n\nc"), vec!["a", "b", "", "c"]);
    assert_eq!(text::lines_of(""), Vec::<String>::new());
    let v = vec!["one".to_owned(), String::new(), "two".to_owned()];
    assert_eq!(text::lines_of(&text::with_line_feeds(&v)), v);
}

#[test]
fn words_and_fields() {
    assert_eq!(text::words_of(" a\u{a0}b\tc "), vec!["a", "b", "c"]);
    assert_eq!(text::fields("a//b", '/'), vec!["a", "", "b"]);
    assert_eq!(text::cut("a:b:c", ':'), Some(("a".into(), "b:c".into())));
    assert_eq!(text::cut_last("a:b:c", ':'), Some(("a:b".into(), "c".into())));
    assert_eq!(text::cut("abc", ':'), None);
    assert_eq!(text::joined(&vec!["a".into(), "b".into()], ", "), "a, b");
    assert_eq!(text::trimmed("\u{2003} x \n"), "x");
    assert_eq!(text::trimmed_char("//a/b/", '/'), "a/b");
}

#[test]
fn numbers_read_back() {
    for n in [0u64, 7, 10, 65535, u64::MAX] {
        assert_eq!(read_decimal(&dec_of(n), u64::MAX), Some(n));
        assert_eq!(dec_of(n), n.to_string());
    }
    assert_eq!(read_decimal("+12", 255), Some(12));
    assert_eq!(read_decimal("0000300", 299), None);
    for bad in ["", "+", "-1", "1 ", "1x"] {
        assert_eq!(read_decimal(bad, u64::MAX), None, "{bad:?}");
    }
    assert_eq!(read_hexadecimal("fF", 255), Some(255));
    assert_eq!(read_hexadecimal("100", 255), None);
}

#[test]
fn addresses_are_spelled_the_usual_way() {
    for (given, shown) in [
        ("198.51.100.7", "198.51.100.7"),
        ("2001:DB8:0:0:0:0:0:1", "2001:db8::1"),
        ("::", "::"),
        ("::1", "::1"),
        ("1:0:0:2:0:0:0:3", "1:0:0:2::3"),
        ("1:0:0:2:3:0:0:4", "1::2:3:0:0:4"),
        ("1:0:2:3:4:5:6:7", "1:0:2:3:4:5:6:7"),
        ("::ffff:198.51.100.7", "::ffff:198.51.100.7"),
        ("::198.51.100.7", "::c633:6407"),
        ("64:ff9b::192.0.2.1", "64:ff9b::c000:201"),
    ] {
        assert_eq!(IpAddr::parse(given).unwrap().to_text(), shown, "{given}");
    }
    for bad in [
        "", "1.2.3", "1.2.3.4.5", "1.2.3.256", "01.2.3.4", ":1", "1:2", "1::2::3", "12345::",
        "1:2:3:4:5:6:7:8:9", "1.2.3.4 ", "fe80::1%eth0", "::1.2.3", "1:2:3:4:5:6:7:8::",
    ] {
        assert!(IpAddr::parse(bad).is_none(), "{bad:?}");
    }
}

#[test]
fn a_mapped_address_is_flattened() {
    let mapped = IpAddr::parse("::ffff:127.0.0.1").unwrap();
    assert_eq!(mapped.to_ipv4_mapped(), Some(IpAddr::V4(127, 0, 0, 1)));
    assert_eq!(mapped.flattened(), IpAddr::V4(127, 0, 0, 1));
    assert!(!mapped.is_loopback(), "only once it is flattened");
    assert!(mapped.flattened().is_loopback());
    assert!(IpAddr::parse("127.9.9.9").unwrap().is_loopback());
    assert!(IpAddr::parse("0.0.0.0").unwrap().is_unspecified());
}

#[test]
fn sorting_is_stable_and_by_character() {
    let v = vec!["b".to_owned(), "a".to_owned(), "B".to_owned(), "ab".to_owned(), "\u{e9}".to_owned()];
    assert_eq!(sort(v), vec!["B", "a", "ab", "b", "\u{e9}"]);
    assert_eq!(sort(vec![3u32, 1, 2, 1]), vec![1, 1, 2, 3]);
}

#[test]
fn arrays_of_texts() {
    assert_eq!(json::arr(&["a".to_owned(), "b\"".to_owned()]), "[\"a\",\"b\\\"\"]");
    assert_eq!(json::arr(&[]), "[]");
    assert_eq!(json::quote("x\ny"), "\"x\\ny\"");
}
