use std::io::Read;

use mapping_serde::element::{Class, Element, Field, Method, MethodArg, MethodVar};
use mapping_serde::error::ErrorKind;
use mapping_serde::io::{MaybeBorrowed, SmolCowStr};
use mapping_serde::tiny2::{
    from_slice, from_slice_all, make_smol_cow_str, to_vec, Deserializer, Serializer,
};

const TEST_MAPPING: &[u8] = b"tiny\t2\t0\tintermediary\tnamed\tofficial
\tmissing-lvt-indices
\tsorted-key\tsome value
c\tclass_1\tclass1Ns0Rename\tclass1Ns1Rename
\tc\tThis is a class comment
\tf\tI\tfield_1\tfield1Ns0Rename\tfield1Ns1Rename
\tm\t()I\tmethod_1\tmethod1Ns0Rename\tmethod1Ns1Rename
\t\tc\tA method comment
\t\tp\t1\tparam_1\tparam1Ns0Rename\tparam1Ns1Rename
\t\tv\t2\t5\t-1\tvar_1\tvar1Ns0Rename\tvar1Ns1Rename
\t\tv\t3\t7\t4\tvar_2\tvar2Ns0Rename\tvar2Ns1Rename
c\tclass_2\tclass2Ns0Rename\tclass2Ns1Rename
\tf\tLcls;\tfield_2\tfield2Ns0Rename\tfield2Ns1Rename
\t\tc\tA field comment
";

fn names(ns: &[&str]) -> Vec<Vec<u8>> {
    ns.iter().map(|n| n.as_bytes().to_vec()).collect()
}

fn validate_elements(elements: &[Element]) {
    assert_eq!(elements.len(), 2);
    let Element::Class(class1) = &elements[0] else {
        panic!("class_1 type mismatch")
    };
    assert_eq!(class1.src, b"class_1");
    assert_eq!(class1.dst, names(&["class1Ns0Rename", "class1Ns1Rename"]));
    assert_eq!(class1.content.len(), 3);
    assert!(matches!(&class1.content[0], Element::Comment(c) if c == b"This is a class comment"));
    let Element::Field(field1) = &class1.content[1] else {
        panic!("field_1 type mismatch")
    };
    assert_eq!(field1.src, b"field_1");
    assert_eq!(field1.desc.as_deref(), Some(&b"I"[..]));
    assert_eq!(field1.dst, names(&["field1Ns0Rename", "field1Ns1Rename"]));
    let Element::Method(method1) = &class1.content[2] else {
        panic!("method_1 type mismatch")
    };
    assert_eq!(method1.src, b"method_1");
    assert_eq!(method1.desc.as_deref(), Some(&b"()I"[..]));
    assert_eq!(method1.content.len(), 4);
    let Element::MethodArg(param1) = &method1.content[1] else {
        panic!("param_1 type mismatch")
    };
    assert_eq!(param1.lv_index, Some(1));
    assert_eq!(param1.src.as_deref(), Some(&b"param_1"[..]));
    assert_eq!(
        param1.dst,
        Some(names(&["param1Ns0Rename", "param1Ns1Rename"]))
    );
    let Element::MethodVar(var1) = &method1.content[2] else {
        panic!("var_1 type mismatch")
    };
    assert_eq!(var1.lv_index, Some(2));
    assert_eq!(var1.op_idx, Some((5, None)));
    assert_eq!(var1.lvt_row_index, None);
    let Element::MethodVar(var2) = &method1.content[3] else {
        panic!("var_2 type mismatch")
    };
    assert_eq!(var2.lvt_row_index, Some(4));
    let Element::Class(class2) = &elements[1] else {
        panic!("class_2 type mismatch")
    };
    let Element::Field(field2) = &class2.content[0] else {
        panic!("field_2 type mismatch")
    };
    assert_eq!(field2.desc.as_deref(), Some(&b"Lcls;"[..]));
    assert!(matches!(&field2.content[0], Element::Comment(c) if c == b"A field comment"));
}

fn validate_serde(mut deserializer: Deserializer) {
    let elements = deserializer.deserialize_all().expect("failed to deserialize");
    validate_elements(&elements);

    let mut buf = Vec::new();
    let props = deserializer.properties();
    let mut serializer = Serializer::new(
        &mut buf,
        deserializer.src_namespace(),
        deserializer.dst_namespaces(),
        0,
        &props,
    )
    .expect("failed to create serializer");
    serializer.serialize_elements(&elements).expect("failed to serialize");

    let lhs = std::str::from_utf8(&buf).unwrap().trim_ascii_end();
    let rhs = std::str::from_utf8(TEST_MAPPING).unwrap().trim_ascii_end();
    assert_eq!(lhs.lines().count(), rhs.lines().count());
    for (line, (l, r)) in lhs.lines().zip(rhs.lines()).enumerate() {
        assert_eq!(
            l.trim_ascii_end(),
            r.trim_ascii_end(),
            "unmatch in line {}",
            line + 1
        );
    }
}

#[test]
fn deserialize_from_slice() {
    let mut deserializer =
        Deserializer::from_slice(TEST_MAPPING).expect("failed to create deserializer");
    let elements = deserializer.deserialize_all().expect("failed to deserialize");
    validate_elements(&elements);
}

#[test]
fn serde_deserialize_from_slice() {
    let deserializer =
        Deserializer::from_slice(TEST_MAPPING).expect("failed to create deserializer");
    validate_serde(deserializer);
}

#[test]
fn serde_deserialize_from_io() {
    let mut buf = Vec::new();
    std::io::Cursor::new(TEST_MAPPING)
        .read_to_end(&mut buf)
        .expect("failed to read");
    let deserializer = Deserializer::from_slice(&buf).expect("failed to create deserializer");
    validate_serde(deserializer);
}

#[test]
fn tiny2_header_is_read() {
    let deserializer = Deserializer::from_slice(TEST_MAPPING).unwrap();
    assert_eq!(deserializer.src_namespace(), b"intermediary");
    assert_eq!(deserializer.dst_namespaces(), &names(&["named", "official"])[..]);
    let props = deserializer.properties();
    assert_eq!(props.len(), 2);
    assert_eq!(props[0], (&b"missing-lvt-indices"[..], None));
    assert_eq!(props[1], (&b"sorted-key"[..], Some(&b"some value"[..])));
}

#[test]
fn tiny2_properties_come_sorted_and_last_wins() {
    let file = b"tiny\t2\t0\ta\tb\n\tzeta\t1\n\talpha\n\tzeta\t2\n";
    let deserializer = Deserializer::from_slice(file).unwrap();
    let props = deserializer.properties();
    assert_eq!(
        props,
        vec![(&b"alpha"[..], None), (&b"zeta"[..], Some(&b"2"[..]))]
    );
}

#[test]
fn tiny2_first_class_only() {
    let first = from_slice(TEST_MAPPING).unwrap().unwrap();
    let Element::Class(c) = first else { panic!() };
    assert_eq!(c.src, b"class_1");
    assert_eq!(from_slice_all(TEST_MAPPING).unwrap().len(), 2);
}

#[test]
fn tiny2_header_errors() {
    let err = from_slice_all(b"tiny\t3\t0\ta\tb\n").unwrap_err();
    assert!(matches!(err.kind, ErrorKind::Version { major: 3, minor: 0 }));
    let err = from_slice_all(b"tiny\t2\t0\ta\n").unwrap_err();
    assert!(matches!(err.kind, ErrorKind::MissingField("namespace-b")));
    let err = from_slice_all(b"tiny\n").unwrap_err();
    assert!(matches!(err.kind, ErrorKind::MissingField("major-version")));
    let err = from_slice_all(b"").unwrap_err();
    assert!(matches!(err.kind, ErrorKind::MissingField("magic in tiny2 header")));
    let err = from_slice_all(b"tiny\tx\t0\ta\tb\n").unwrap_err();
    assert!(matches!(err.kind, ErrorKind::InvalidValue { .. }));
}

#[test]
fn tiny2_entry_errors() {
    let err = from_slice_all(b"tiny\t2\t0\ta\tb\nf\tI\tx\n").unwrap_err();
    assert!(matches!(
        err.kind,
        ErrorKind::InvalidType { ref found, expected: "c(class)" } if found == b"f"
    ));
    let err = from_slice_all(b"tiny\t2\t0\ta\tb\nc\tA\n\tp\t1\n").unwrap_err();
    assert!(matches!(
        err.kind,
        ErrorKind::InvalidType { expected: "c(comment), f, m", .. }
    ));
    assert_eq!(err.line, 3);
    let err = from_slice_all(b"tiny\t2\t0\ta\tb\nc\tA\n\tm\t()V\tm\n\t\tp\tx\n").unwrap_err();
    assert!(matches!(err.kind, ErrorKind::InvalidValue { .. }));
    let err = from_slice_all(b"tiny\t2\t0\ta\tb\nc\n").unwrap_err();
    assert!(matches!(err.kind, ErrorKind::MissingField("class-name-a")));
}

#[test]
fn tiny2_escaped_names_are_unescaped_and_written_back() {
    let file = b"tiny\t2\t0\ta\tb\n\tescaped-names\nc\tna\\u{e9}me\tx\\ty\n";
    let mut deserializer = Deserializer::from_slice(file).unwrap();
    let elements = deserializer.deserialize_all().unwrap();
    let Element::Class(c) = &elements[0] else { panic!() };
    assert_eq!(c.src, "na\u{e9}me".as_bytes());
    assert_eq!(c.dst, vec![b"x\ty".to_vec()]);
    let props = deserializer.properties();
    let out = to_vec(&elements, b"a", &names(&["b"]), &props).unwrap();
    assert_eq!(out, file.to_vec());
}

#[test]
fn tiny2_roundtrip_written_elements() {
    let elements = vec![Element::Class(Class {
        src: b"pkg/A".to_vec(),
        dst: names(&["pkg/B"]),
        content: vec![
            Element::Comment(b"a comment".to_vec()),
            Element::Field(Field {
                src: b"f".to_vec(),
                dst: names(&["g"]),
                desc: Some(b"J".to_vec()),
                dst_desc: None,
                content: vec![],
            }),
            Element::Method(Method {
                src: b"m".to_vec(),
                dst: names(&["n"]),
                desc: Some(b"(I)V".to_vec()),
                dst_desc: None,
                content: vec![
                    Element::MethodArg(MethodArg {
                        src: Some(b"x".to_vec()),
                        dst: Some(names(&["y"])),
                        pos: None,
                        lv_index: Some(1),
                        content: vec![],
                    }),
                    Element::MethodVar(MethodVar {
                        src: None,
                        dst: None,
                        lv_index: Some(2),
                        lvt_row_index: Some(0),
                        op_idx: Some((3, None)),
                        content: vec![],
                    }),
                ],
            }),
        ],
    })];
    let text = to_vec(&elements, b"src", &names(&["dst"]), &[]).unwrap();
    assert_eq!(
        text,
        b"tiny\t2\t0\tsrc\tdst\nc\tpkg/A\tpkg/B\n\tc\ta comment\n\tf\tJ\tf\tg\n\tm\t(I)V\tm\tn\n\t\tp\t1\tx\ty\n\t\tv\t2\t3\t0\n"
            .to_vec()
    );
    assert_eq!(from_slice_all(&text).unwrap(), elements);
}

#[test]
fn tiny2_serializer_rejects_misplaced_elements() {
    let err = to_vec(&[Element::Comment(b"top".to_vec())], b"a", &names(&["b"]), &[]).unwrap_err();
    assert!(matches!(err.kind, ErrorKind::Unsupported("comment")));
    let field = Element::Field(Field {
        src: b"f".to_vec(),
        dst: vec![],
        desc: None,
        dst_desc: None,
        content: vec![],
    });
    let class = Element::Class(Class { src: b"A".to_vec(), dst: vec![], content: vec![field] });
    let err = to_vec(&[class], b"a", &names(&["b"]), &[]).unwrap_err();
    assert!(matches!(err.kind, ErrorKind::MissingToWrite("field-desc-a")));
}

#[test]
fn tiny2_oversized_unicode_escape_is_an_error() {
    let err = from_slice_all(b"tiny\t2\t0\ta\tb\nc\tA\n\tc\tx\\u{100000000}\n").unwrap_err();
    assert!(matches!(err.kind, ErrorKind::Unescape));
    let elements = from_slice_all(b"tiny\t2\t0\ta\tb\nc\tA\n\tc\tx\\\\u{100000000}\n").unwrap();
    let Element::Class(c) = &elements[0] else { panic!() };
    assert_eq!(c.content[0], Element::Comment(b"x\\u{100000000}".to_vec()));
}

#[test]
fn tiny2_blank_lines_are_skipped() {
    let elements = from_slice_all(b"tiny\t2\t0\ta\tb\nc\tA\tB\n\nc\tC\tD\n").unwrap();
    assert_eq!(elements.len(), 2);
}

#[test]
fn tiny2_names_stay_borrowed_unless_unescaped() {
    let plain = make_smol_cow_str(MaybeBorrowed::Borrowed(&b"name"[..]), true).unwrap();
    assert!(matches!(plain, SmolCowStr::Borrowed(b) if b == b"name"));
    let escaped = make_smol_cow_str(MaybeBorrowed::Borrowed(&b"a\\tb"[..]), true).unwrap();
    assert!(matches!(escaped, SmolCowStr::Owned(ref v) if v == b"a\tb"));
    let raw = make_smol_cow_str(MaybeBorrowed::Borrowed(&b"a\\tb"[..]), false).unwrap();
    assert!(matches!(raw, SmolCowStr::Borrowed(b) if b == b"a\\tb"));
    assert!(matches!(make_smol_cow_str(MaybeBorrowed::Borrowed(&b"\xff"[..]), false), Err(ErrorKind::Utf8)));
}

#[test]
fn tiny2_reports_which_entries_stay_borrowed() {
    let file = b"tiny\t2\t0\ta\tb\n\tescaped-names\nc\tA\tB\n\tm\t()V\tm\\tx\tM\n\t\tv\t1\t5\t-1\tx\tX\n\tc\tplain comment\n";
    let mut d = Deserializer::from_slice(file).unwrap();
    let class = d.deserialize_any().unwrap().unwrap();
    let Element::Class(c) = &class else { panic!() };
    let Element::Method(m) = &c.content[0] else { panic!() };
    assert_eq!(m.src, b"m\tx");
    assert_eq!(d.borrowed_entries(), &[true, false, true, true][..]);
    let mut d = Deserializer::from_slice(b"tiny\t2\t0\ta\tb\nc\tA\\tB\tC\n").unwrap();
    d.deserialize_any().unwrap().unwrap();
    assert_eq!(d.borrowed_entries(), &[true][..]);
    assert!(d.deserialize_any().unwrap().is_none());
    assert!(d.borrowed_entries().is_empty());
}
