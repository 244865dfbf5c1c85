use std::io::Read;

use mapping_serde::element::Element;
use mapping_serde::error::ErrorKind;
use mapping_serde::proguard::{
    from_slice, parse_class_line, parse_member, parse_type, process_src, Deserializer,
};

const TEST_MAPPING: &[u8] = b"# compiler: R8
# pg_map_id: 0123abc
class_1 -> class1Ns0Rename:
    int field_1 -> field1Ns0Rename
    1:3:int method_1() -> method1Ns0Rename
    void method_2(int,cls,boolean) -> method2Ns0Rename
class_1$class_2 -> class1Ns0Rename$class2Ns0Rename:
";

fn validate_elements(elements: &[Element]) {
    let mut elements = elements.iter();

    let Element::Class(class1) = elements.next().unwrap() else {
        panic!()
    };
    assert_eq!(class1.src, b"class_1");
    assert_eq!(class1.dst[0], b"class1Ns0Rename");
    let mut class1_contents = class1.content.iter();
    let Element::Field(field1) = class1_contents.next().unwrap() else {
        panic!()
    };
    assert_eq!(field1.src, b"field_1");
    assert_eq!(field1.dst[0], b"field1Ns0Rename");
    assert_eq!(field1.desc.as_deref().unwrap(), b"I");
    let Element::Method(method1) = class1_contents.next().unwrap() else {
        panic!()
    };
    assert_eq!(method1.src, b"method_1");
    assert_eq!(method1.dst[0], b"method1Ns0Rename");
    assert_eq!(method1.desc.as_deref().unwrap(), b"()I");
    let Element::Method(method2) = class1_contents.next().unwrap() else {
        panic!()
    };
    assert_eq!(method2.src, b"method_2");
    assert_eq!(method2.dst[0], b"method2Ns0Rename");
    assert_eq!(method2.desc.as_deref().unwrap(), b"(ILcls;Z)V");

    let Element::Class(class2) = elements.next().unwrap() else {
        panic!()
    };
    assert_eq!(class2.src, b"class_1$class_2");
    assert_eq!(class2.dst[0], b"class1Ns0Rename$class2Ns0Rename");
    assert!(elements.next().is_none());
}

#[test]
fn tests_deserialize_from_slice() {
    let mut deserializer = Deserializer::new(b"mojmaps", b"obfuscated", TEST_MAPPING);
    assert_eq!(deserializer.src_namespace(), b"mojmaps");
    assert_eq!(deserializer.dst_namespaces(), vec![&b"obfuscated"[..]]);
    let elements = deserializer.deserialize_all().expect("failed to deserialize");
    validate_elements(&elements);
}

#[test]
fn tests_deserialize_from_io() {
    let mut buf = Vec::new();
    std::io::Cursor::new(TEST_MAPPING)
        .read_to_end(&mut buf)
        .expect("failed to read");
    let mut deserializer = Deserializer::new(b"mojmaps", b"obfuscated", &buf);
    let elements = deserializer.deserialize_all().expect("failed to deserialize");
    validate_elements(&elements);
}

#[test]
fn proguard_from_slice_matches_deserializer() {
    let elements = from_slice(TEST_MAPPING).expect("failed to deserialize");
    validate_elements(&elements);
}

#[test]
fn proguard_types_become_descriptors() {
    assert_eq!(parse_type(b"int"), b"I");
    assert_eq!(parse_type(b"boolean"), b"Z");
    assert_eq!(parse_type(b"void"), b"V");
    assert_eq!(parse_type(b"long"), b"J");
    assert_eq!(parse_type(b"byte"), b"B");
    assert_eq!(parse_type(b"char"), b"C");
    assert_eq!(parse_type(b"double"), b"D");
    assert_eq!(parse_type(b"float"), b"F");
    assert_eq!(parse_type(b"short"), b"S");
    assert_eq!(parse_type(b"java.lang.String"), b"Ljava/lang/String;");
    assert_eq!(parse_type(b"int[][]"), b"[[I");
    assert_eq!(parse_type(b"a.B[]"), b"[La/B;");
}

#[test]
fn proguard_process_src_uses_slashes() {
    assert_eq!(process_src(b"a.b.C"), b"a/b/C");
    assert_eq!(process_src(b"plain"), b"plain");
}

#[test]
fn proguard_class_line_errors() {
    assert_eq!(
        parse_class_line(b"a.B -> c:").unwrap(),
        (b"a/B".to_vec(), b"c".to_vec())
    );
    assert_eq!(
        parse_class_line(b"p.C -> q.D:").unwrap(),
        (b"p/C".to_vec(), b"q/D".to_vec())
    );
    assert!(matches!(
        parse_class_line(b"a.B -> c"),
        Err(ErrorKind::Msg("missing trailing colon in classline"))
    ));
    assert!(matches!(
        parse_class_line(b"a.B c:"),
        Err(ErrorKind::Msg("missing separator ' -> ' in classline"))
    ));
    assert!(matches!(parse_class_line(b"\xff -> c:"), Err(ErrorKind::Utf8)));
}

#[test]
fn proguard_member_errors() {
    assert!(matches!(
        parse_member(b"int field_1 field1"),
        Err(ErrorKind::Msg("missing separator ' -> ' in methodline or fieldline"))
    ));
    assert!(matches!(
        parse_member(b" -> x"),
        Err(ErrorKind::MissingField("originaltype"))
    ));
    assert!(matches!(
        parse_member(b"int -> x"),
        Err(ErrorKind::MissingField("originalname"))
    ));
    assert!(matches!(
        parse_member(b"int m(int -> x"),
        Err(ErrorKind::Msg("unclosed parentheses"))
    ));
    let Ok(Element::Method(m)) = parse_member(b"java.lang.String a.b.name(long[]) -> n") else {
        panic!()
    };
    assert_eq!(m.src, b"b/name");
    assert_eq!(m.desc.as_deref().unwrap(), b"([J)Ljava/lang/String;");
}

#[test]
fn proguard_bad_class_line_reports_error() {
    let err = from_slice(b"class_1 class1:\n").unwrap_err();
    assert!(matches!(
        err.kind,
        ErrorKind::Msg("missing separator ' -> ' in classline")
    ));
    assert_eq!(err.line, 1);
}

#[test]
fn proguard_empty_input_has_no_classes() {
    assert!(from_slice(b"").unwrap().is_empty());
    assert!(from_slice(b"# only a comment\n").unwrap().is_empty());
}
