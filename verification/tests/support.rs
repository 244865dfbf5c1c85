use mapping_serde::bytemap::{lex_less, ByteMap};
use mapping_serde::error::{Error, ErrorKind};
use mapping_serde::io::{find_first, ColumnReadAdapter, ColumnReader, SliceReader};
use mapping_serde::ser::{Impossible, Skip};
use mapping_serde::strs::{eq_bytes, find_pattern, replace, rfind, starts_with, token_range};
use mapping_serde::text::{
    int_error_of, int_error_text, parse_nonneg, parse_u16, parse_unsigned_upto,
    parse_usize, push_decimal, push_int, IntError,
};
use mapping_serde::visitor::RefVisitor;

#[test]
fn bytemap_lookup_after_insert() {
    let mut m: ByteMap<u32> = ByteMap::new();
    assert_eq!(m.len(), 0);
    m.insert(b"zeta".to_vec(), 1);
    m.insert(b"alpha".to_vec(), 2);
    m.insert(b"mid".to_vec(), 3);
    assert_eq!(m.get(b"alpha"), Some(&2));
    assert_eq!(m.get(b"zeta"), Some(&1));
    assert_eq!(m.get(b"none"), None);
    m.insert(b"alpha".to_vec(), 9);
    assert_eq!(m.get(b"alpha"), Some(&9));
    assert_eq!(m.len(), 3);
    assert!(m.contains_key(b"mid"));
    assert!(!m.contains_key(b"mi"));
    let keys: Vec<&[u8]> = (0..m.len()).map(|i| m.entry_at(i).0).collect();
    assert_eq!(keys, vec![&b"alpha"[..], &b"mid"[..], &b"zeta"[..]]);
    let i = m.find(b"mid").unwrap();
    assert_eq!(m.replace_at(i, 7), 3);
    assert_eq!(m.get(b"mid"), Some(&7));
    assert_eq!(m.find(b"x"), None);
}

#[test]
fn bytemap_pairs_in_key_order() {
    let mut m: ByteMap<Option<Vec<u8>>> = ByteMap::new();
    m.insert(b"b".to_vec(), None);
    m.insert(b"a".to_vec(), Some(b"v".to_vec()));
    assert_eq!(m.pairs(), vec![(&b"a"[..], Some(&b"v"[..])), (&b"b"[..], None)]);
}

#[test]
fn lex_order_of_bytes() {
    assert!(lex_less(b"a", b"b"));
    assert!(lex_less(b"a", b"ab"));
    assert!(!lex_less(b"ab", b"a"));
    assert!(!lex_less(b"a", b"a"));
    assert!(lex_less(b"", b"a"));
}

#[test]
fn decimal_text_reads_back() {
    let mut out = Vec::new();
    push_decimal(&mut out, 65535);
    assert_eq!(out, b"65535");
    assert_eq!(parse_u16(&out), Some(65535));
    let mut out = Vec::new();
    push_decimal(&mut out, 0);
    assert_eq!(out, b"0");
    assert_eq!(parse_usize(&out), Some(0));
    let mut out = Vec::new();
    push_int(&mut out, -1);
    assert_eq!(out, b"-1");
    let mut out = Vec::new();
    push_int(&mut out, 42);
    assert_eq!(out, b"42");
}

#[test]
fn unsigned_integers_as_from_str_reads_them() {
    assert_eq!(parse_usize(b"+7"), Some(7));
    assert_eq!(parse_usize(b""), None);
    assert_eq!(parse_usize(b"-1"), None);
    assert_eq!(parse_usize(b"1x"), None);
    assert_eq!(parse_u16(b"65536"), None);
    assert_eq!(parse_unsigned_upto(b"10", 9), None);
    assert_eq!(parse_unsigned_upto(b"9", 9), Some(9));
    assert_eq!(parse_nonneg(b"-0"), Some(0));
    assert_eq!(parse_nonneg(b"-1"), None);
    assert_eq!(parse_nonneg(b"12"), Some(12));
}

#[test]
fn integer_errors_as_from_str_names_them() {
    assert_eq!(int_error_of(b"", 10), IntError::Empty);
    assert_eq!(int_error_of(b"+", 10), IntError::InvalidDigit);
    assert_eq!(int_error_of(b"1a", 10), IntError::InvalidDigit);
    assert_eq!(int_error_of(b"11", 10), IntError::PosOverflow);
    assert_eq!(
        int_error_text(IntError::PosOverflow, false),
        "number too large to fit in target type"
    );
    assert_eq!(
        int_error_text(IntError::Empty, true),
        "error: cannot parse integer from empty string"
    );
}

#[test]
fn utf8_check_through_readers() {
    let err = mapping_serde::proguard::from_slice(b"\xff -> a:\n").unwrap_err();
    assert!(matches!(err.kind, ErrorKind::Utf8));
    let ok = mapping_serde::proguard::from_slice("na\u{e9}me -> a:\n".as_bytes()).unwrap();
    assert_eq!(ok.len(), 1);
}

#[test]
fn byte_string_helpers() {
    assert!(eq_bytes(b"abc", b"abc"));
    assert!(!eq_bytes(b"abc", b"abd"));
    assert!(starts_with(b"# key", b"#"));
    assert_eq!(find_pattern(b"a -> b", b" -> "), Some(1));
    assert_eq!(find_pattern(b"a b", b" -> "), None);
    assert_eq!(rfind(b"1:2:int", b':'), Some(3));
    assert_eq!(replace(b"a.b.C", b'.', b'/'), b"a/b/C".to_vec());
    assert_eq!(token_range(b"  int x", 0), Some((2, 5)));
    assert_eq!(find_first(b'\n', b"ab\ncd"), Some(2));
}

#[test]
fn column_reader_splits_lines_and_columns() {
    let mut reader = ColumnReader::new(b'\t', b' ', ColumnReadAdapter::new(SliceReader::new(
        b"CLASS a b\n\tFIELD x y I\n",
    )));
    assert_eq!(reader.next_line(), Some(0));
    assert_eq!(reader.line(), 1);
    assert_eq!(reader.read_cols(3), vec![Some(b"CLASS".to_vec()), Some(b"a".to_vec()), Some(b"b".to_vec())]);
    assert_eq!(reader.next_line(), Some(1));
    assert_eq!(reader.iter_cols(), vec![b"FIELD".to_vec(), b"x".to_vec(), b"y".to_vec(), b"I".to_vec()]);
    assert_eq!(reader.next_line(), None);
}

#[test]
fn ref_visitor_is_taken_once() {
    let mut v = RefVisitor::new(5u8);
    assert!(!v.visited());
    assert_eq!(v.take().unwrap(), 5);
    assert!(v.visited());
    let err = v.take().unwrap_err();
    assert!(matches!(err.kind, ErrorKind::Msg("already visited")));
    assert_eq!(v.into_inner(), None);
    assert_eq!(RefVisitor::new(1u8).into_inner(), Some(1));
}

#[test]
fn impossible_and_skip_serializers() {
    let mut imp = Impossible;
    let err = imp.serialize_class(b"a", &[]).unwrap_err();
    assert!(matches!(err.kind, ErrorKind::Unsupported("class")));
    let err = imp.serialize_comment(b"c").unwrap_err();
    assert!(matches!(err.kind, ErrorKind::Unsupported("comment")));
    let mut skip = Skip::new();
    assert!(skip.serialize_comment(b"c").is_ok());
    assert!(skip.serialize_field(b"f", None, &[], None).is_ok());
}

#[test]
fn errors_carry_their_location() {
    let e = Error::new(ErrorKind::Utf8).with_loc(3, 4);
    assert_eq!((e.line, e.col), (3, 4));
    assert!(matches!(e.kind, ErrorKind::Utf8));
}

#[test]
fn column_reader_skips_blank_lines() {
    let mut reader = ColumnReader::new(b'\t', b' ', ColumnReadAdapter::new(SliceReader::new(b"a\n\nb\n")));
    assert_eq!(reader.next_line(), Some(0));
    assert_eq!(reader.this_line().map(|l| l.as_short().to_vec()), Some(b"a".to_vec()));
    assert_eq!(reader.next_line(), Some(0));
    assert_eq!(reader.this_line().map(|l| l.as_short().to_vec()), Some(b"b".to_vec()));
    assert_eq!(reader.line(), 3);
    assert_eq!(reader.next_line(), None);
}

#[test]
fn slice_reads_are_borrowed_and_deref() {
    let mut reader = ColumnReader::new(b'\t', b' ', ColumnReadAdapter::new(SliceReader::new(b"a b\n")));
    assert_eq!(reader.next_line(), Some(0));
    let col = reader.read_col().unwrap();
    assert!(col.is_borrowed());
    assert_eq!(&*col, b"a");
}

#[test]
fn errors_render_their_message() {
    let e = Error::new(ErrorKind::MissingField("desc-a")).with_loc(2, 3);
    assert_eq!(
        e.to_string(),
        "an error occured at line 2, logical column 3: missing field for deserializer: desc-a"
    );
    let e = Error::new(ErrorKind::Version { major: 3, minor: 1 });
    assert_eq!(
        e.to_string(),
        "an error occured at line 0, logical column 0: unexpected tiny v2 version: 3.1, expected 2.x"
    );
    let e = Error::new(ErrorKind::InvalidType { found: b"f".to_vec(), expected: "c(class)" });
    assert_eq!(e.message(), b"an error occured at line 0, logical column 0: invalid type: f, expected c(class)".to_vec());
}
