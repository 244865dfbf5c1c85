use std::io::Read;

use mapping_serde::element::Element;
use mapping_serde::enigma::{from_slice, from_slice_all, to_vec, Deserializer, Serializer};
use mapping_serde::error::ErrorKind;

const TEST_MAPPING: &[u8] = b"CLASS class_1 class1Ns0Rename
\tFIELD field_1 field1Ns0Rename I
\tMETHOD method_1 method1Ns0Rename ()I
\t\tARG 1 param1Ns0Rename
\tCLASS class_2 class2Ns0Rename
\t\tCOMMENT This is a comment
\t\tCOMMENT Another line
\t\tFIELD field_2 field2Ns0Rename Lcls;
CLASS class_3 package_3/class3Ns0Rename
";

fn names(ns: &[&str]) -> Vec<Vec<u8>> {
    ns.iter().map(|n| n.as_bytes().to_vec()).collect()
}

fn validate_elements(value: &[Element]) {
    let mut elements = value.iter();

    let Element::Class(class1) = elements.next().expect("failed to get class_1") else {
        panic!("class_1 type mismatch")
    };
    assert_eq!(class1.src, b"class_1");
    assert_eq!(class1.dst.len(), 1);
    assert_eq!(class1.dst[0], b"class1Ns0Rename");

    let mut content = class1.content.iter();
    let Element::Field(field1) = content.next().expect("failed to get field_1") else {
        panic!("field_1 type mismatch")
    };
    assert_eq!(field1.src, b"field_1");
    assert_eq!(field1.dst.len(), 1);
    assert_eq!(field1.dst[0], b"field1Ns0Rename");
    assert_eq!(field1.desc.as_deref(), Some(&b"I"[..]));
    assert!(field1.dst_desc.is_none());

    let Element::Method(method1) = content.next().expect("failed to get method_1") else {
        panic!("method_1 type mismatch")
    };
    assert_eq!(method1.src, b"method_1");
    assert_eq!(method1.dst.len(), 1);
    assert_eq!(method1.dst[0], b"method1Ns0Rename");
    assert_eq!(method1.desc.as_deref(), Some(&b"()I"[..]));
    assert!(method1.dst_desc.is_none());
    assert_eq!(method1.content.len(), 1);
    let Element::MethodArg(arg1) = &method1.content.first().expect("failed get arg1") else {
        panic!("arg1 type mismatch");
    };
    assert_eq!(arg1.lv_index, Some(1));
    assert_eq!(arg1.pos, None);
    assert_eq!(&arg1.dst.as_ref().unwrap()[0], b"param1Ns0Rename");

    assert!(matches!(
        elements.next().expect("failed to get glass_3"),
        Element::Class(_)
    ));
}

#[test]
fn de_deserialize_from_slice() {
    let mut deserializer = Deserializer::from_slice(b"src", b"dst", TEST_MAPPING);
    let elements = deserializer.deserialize_all().expect("failed to deserialize");
    validate_elements(&elements);
}

#[test]
fn de_deserialize_from_io() {
    let mut source = std::io::Cursor::new(TEST_MAPPING);
    let mut buf = Vec::new();
    source.read_to_end(&mut buf).expect("failed to read");
    let mut deserializer = Deserializer::from_slice(b"src", b"dst", &buf);
    let elements = deserializer.deserialize_all().expect("failed to deserialize");
    validate_elements(&elements);
}

#[test]
fn serialize() {
    let mut vec = Vec::new();
    {
        let mut ser = Serializer::new(&mut vec);

        let mut class1 = ser
            .serialize_class(b"class_1", &names(&["class1Ns0Rename"]))
            .unwrap();
        class1
            .serialize_field(b"field_1", Some(b"I"), &names(&["field1Ns0Rename"]), None)
            .unwrap();

        let mut method1 = class1
            .serialize_method(b"method_1", Some(b"()I"), &names(&["method1Ns0Rename"]), None)
            .unwrap();
        let param = names(&["param1Ns0Rename"]);
        method1
            .serialize_method_arg(None, Some(&param), None, Some(1))
            .unwrap();

        let mut class2 = class1
            .serialize_class(b"class_2", &names(&["class2Ns0Rename"]))
            .unwrap();
        class2
            .serialize_comment(b"This is a comment\nAnother line")
            .unwrap();
        class2
            .serialize_field(b"field_2", Some(b"Lcls;"), &names(&["field2Ns0Rename"]), None)
            .unwrap();

        ser.serialize_class(b"class_3", &names(&["package_3/class3Ns0Rename"]))
            .unwrap();
    }

    let lhs = std::str::from_utf8(&vec).unwrap().trim_ascii_end();
    let rhs = std::str::from_utf8(TEST_MAPPING).unwrap().trim_ascii_end();
    assert_eq!(lhs.lines().count(), rhs.lines().count());
    for (line, (l, r)) in lhs.lines().zip(rhs.lines()).enumerate() {
        assert_eq!(
            l.trim_ascii_end(),
            r.trim_ascii_end(),
            "unmatch in line {}",
            line + 1
        );
    }
}

#[test]
fn first_item_only() {
    let first = from_slice(TEST_MAPPING, b"src", b"dst").unwrap().unwrap();
    let Element::Class(class1) = first else { panic!() };
    assert_eq!(class1.src, b"class_1");
    assert_eq!(class1.content.len(), 3);
}

#[test]
fn roundtrip_elements() {
    let elements = from_slice_all(TEST_MAPPING).unwrap();
    let mut out = Vec::new();
    for e in &elements {
        out.extend(to_vec(e).unwrap());
    }
    assert_eq!(out, TEST_MAPPING);
    assert_eq!(from_slice_all(&out).unwrap(), elements);
}

#[test]
fn dash_means_no_name() {
    let elements = from_slice_all(b"CLASS a -\n\tFIELD f - I\n\tMETHOD m - ()V\n\t\tARG 0 -\n").unwrap();
    let Element::Class(c) = &elements[0] else { panic!() };
    assert!(c.dst.is_empty());
    let Element::Field(f) = &c.content[0] else { panic!() };
    assert!(f.dst.is_empty());
    let Element::Method(m) = &c.content[1] else { panic!() };
    let Element::MethodArg(a) = &m.content[0] else { panic!() };
    assert_eq!(a.dst, None);
    assert_eq!(a.lv_index, Some(0));
    assert_eq!(to_vec(&elements[0]).unwrap(), b"CLASS a -\n\tFIELD f - I\n\tMETHOD m - ()V\n\t\tARG 0 -\n");
}

#[test]
fn hash_lines_are_passed_over() {
    let elements = from_slice_all(b"#note here\nCLASS a b\n\t# inside\n\tFIELD f g I\n").unwrap();
    assert_eq!(elements.len(), 1);
    let Element::Class(c) = &elements[0] else { panic!() };
    assert_eq!(c.content.len(), 1);
}

#[test]
fn comment_keeps_rest_of_line() {
    let elements = from_slice_all(b"CLASS a b\n\tCOMMENT two words\n\tCOMMENT\n").unwrap();
    let Element::Class(c) = &elements[0] else { panic!() };
    assert_eq!(c.content[0], Element::Comment(b"two words".to_vec()));
    assert_eq!(c.content[1], Element::Comment(Vec::new()));
}

#[test]
fn errors() {
    let e = from_slice_all(b"CLASS\n").unwrap_err();
    assert_eq!(e.kind, ErrorKind::MissingField("class-name-a"));
    let e = from_slice_all(b"CLASS a\n").unwrap_err();
    assert_eq!(e.kind, ErrorKind::MissingField("class-name-b"));
    let e = from_slice_all(b"CLASS a b\n\tFIELD f g\n").unwrap_err();
    assert_eq!(e.kind, ErrorKind::MissingField("desc-a"));
    assert_eq!(e.line, 2);
    let e = from_slice_all(b"CLASS a b\n\tARG -1 x\n").unwrap_err();
    assert_eq!(e.kind, ErrorKind::Msg("invalid parameter lv-index"));
    let e = from_slice_all(b"CLASS a b\n\tARG x y\n").unwrap_err();
    assert_eq!(e.kind, ErrorKind::Msg("invalid parameter lv-index"));
    let e = from_slice_all(b"THING a b\n").unwrap_err();
    assert_eq!(
        e.kind,
        ErrorKind::InvalidType { found: b"THING".to_vec(), expected: "CLASS, FIELD, METHOD, ARG, COMMENT" }
    );
    let e = from_slice_all(b"CLASS \xff b\n").unwrap_err();
    assert_eq!(e.kind, ErrorKind::Utf8);
}

#[test]
fn serializer_errors() {
    let mut vec = Vec::new();
    let mut ser = Serializer::new(&mut vec);
    assert_eq!(
        ser.serialize_field(b"f", None, &[], None).unwrap_err().kind,
        ErrorKind::MissingToWrite("desc")
    );
    assert_eq!(
        ser.serialize_method_var(None, None, Some(1), None, None).unwrap_err().kind,
        ErrorKind::Unsupported("method variable")
    );
    drop(ser);
    assert!(vec.is_empty());
}

#[test]
fn argument_index_written_as_i32() {
    let mut vec = Vec::new();
    {
        let mut ser = Serializer::new(&mut vec);
        ser.serialize_method_arg(None, None, None, None).unwrap();
        ser.serialize_method_arg(None, None, None, Some(7)).unwrap();
    }
    assert_eq!(vec, b"ARG -1 -\nARG 7 -\n");
}

#[test]
fn comment_lines_split_like_str_lines() {
    let mut vec = Vec::new();
    {
        let mut ser = Serializer::new(&mut vec);
        ser.serialize_comment(b"a\r\nb\n").unwrap();
        ser.serialize_comment(b"").unwrap();
    }
    assert_eq!(vec, b"COMMENT a\nCOMMENT b\n");
}

