use mapping_serde::element::{Class, Element, Field, Method};
use mapping_serde::error::ErrorKind;
use mapping_serde::tiny1::{
    from_slice_fast, from_slice_indexed, to_vec, ClassRef, Entry, Index, PseudoTreeDeserializer,
    StreamDeserializer,
};

const TEST_MAPPING: &[u8] = b"v1\tofficial\tintermediary\tnamed
# sorted-key some value
CLASS\ta\tclass_1\tpkg/Class1
FIELD\ta\tI\tb\tfield_1\tfieldOne
METHOD\ta\t()V\tc\tmethod_1\tmethodOne
CLASS\td\tclass_2\tpkg/Class2
METHOD\td\t(I)V\te\tmethod_2\tmethodTwo
";

fn names(ns: &[&str]) -> Vec<Vec<u8>> {
    ns.iter().map(|n| n.as_bytes().to_vec()).collect()
}

fn expected() -> Vec<Element> {
    vec![
        Element::Class(Class {
            src: b"a".to_vec(),
            dst: names(&["class_1", "pkg/Class1"]),
            content: vec![
                Element::Field(Field {
                    src: b"b".to_vec(),
                    dst: names(&["field_1", "fieldOne"]),
                    desc: Some(b"I".to_vec()),
                    dst_desc: None,
                    content: vec![],
                }),
                Element::Method(Method {
                    src: b"c".to_vec(),
                    dst: names(&["method_1", "methodOne"]),
                    desc: Some(b"()V".to_vec()),
                    dst_desc: None,
                    content: vec![],
                }),
            ],
        }),
        Element::Class(Class {
            src: b"d".to_vec(),
            dst: names(&["class_2", "pkg/Class2"]),
            content: vec![Element::Method(Method {
                src: b"e".to_vec(),
                dst: names(&["method_2", "methodTwo"]),
                desc: Some(b"(I)V".to_vec()),
                dst_desc: None,
                content: vec![],
            })],
        }),
    ]
}

#[test]
fn deserialize_from_slice_index() {
    let mut stream = StreamDeserializer::from_slice(TEST_MAPPING).expect("failed to create stream");
    let index = Index::from_stream(&mut stream).expect("failed to collect index");
    assert_eq!(index.elements(), expected());
    let mut deserializer = index.as_deserializer();
    assert_eq!(deserializer.src_namespace(), b"official");
    assert_eq!(deserializer.dst_namespaces(), &names(&["intermediary", "named"])[..]);
    let mut elements = Vec::new();
    while let Some(e) = deserializer.deserialize_any().unwrap() {
        elements.push(e);
    }
    assert_eq!(elements, expected());
    assert_eq!(from_slice_indexed(TEST_MAPPING).unwrap(), expected());
}

#[test]
fn deserialize_from_slice_pseudo_tree() {
    let mut stream = StreamDeserializer::from_slice(TEST_MAPPING).expect("failed to create stream");
    let mut deserializer = PseudoTreeDeserializer::new(&mut stream);
    assert_eq!(deserializer.src_namespace(), b"official");
    let elements = deserializer.deserialize_all().expect("failed to deserialize");
    assert_eq!(elements, expected());
    assert_eq!(from_slice_fast(TEST_MAPPING).unwrap(), expected());
}

#[test]
fn tiny1_stream_reads_header_and_entries() {
    let mut stream = StreamDeserializer::from_slice(TEST_MAPPING).unwrap();
    assert_eq!(stream.src(), b"official");
    assert_eq!(stream.dst(), vec![&b"intermediary"[..], &b"named"[..]]);
    assert_eq!(
        stream.properties(),
        vec![(&b"sorted-key"[..], Some(&b"some value"[..]))]
    );
    let Some(Entry::Class { name, dst }) = stream.deserialize_next().unwrap() else {
        panic!()
    };
    assert_eq!(name, b"a");
    assert_eq!(dst, names(&["class_1", "pkg/Class1"]));
    let Some(Entry::Field { parent, desc, name, dst }) = stream.deserialize_next().unwrap() else {
        panic!()
    };
    assert_eq!((parent, desc, name), (b"a".to_vec(), b"I".to_vec(), b"b".to_vec()));
    assert_eq!(dst, names(&["field_1", "fieldOne"]));
    let mut count = 2;
    while stream.deserialize_next().unwrap().is_some() {
        count += 1;
    }
    assert_eq!(count, 5);
    assert!(stream.deserialize_next().unwrap().is_none());
}

#[test]
fn tiny1_index_files_members_under_their_class() {
    let file = b"v1\ta\tb\nFIELD\tz\tI\tf\tg\nCLASS\tz\tzz\nCLASS\ty\tyy\n";
    let elements = from_slice_indexed(file).unwrap();
    assert_eq!(elements.len(), 2);
    let Element::Class(first) = &elements[0] else { panic!() };
    assert_eq!(first.src, b"y");
    let Element::Class(second) = &elements[1] else { panic!() };
    assert_eq!(second.src, b"z");
    assert_eq!(second.content.len(), 1);
}

#[test]
fn tiny1_header_errors() {
    let err = StreamDeserializer::from_slice(b"v2\ta\tb\n").unwrap_err();
    assert!(matches!(err.kind, ErrorKind::MissingField(_) | ErrorKind::Msg(_)));
    assert!(StreamDeserializer::from_slice(b"v1\ta\n").is_err());
}

#[test]
fn tiny1_unknown_entry_is_an_error() {
    let err = from_slice_fast(b"v1\ta\tb\nPACKAGE\tx\ty\n").unwrap_err();
    assert!(matches!(err.kind, ErrorKind::InvalidEntry(ref t) if t == b"PACKAGE"));
}

#[test]
fn tiny1_serializer_writes_flat_entries() {
    let text = to_vec(
        &expected(),
        b"official",
        &names(&["intermediary", "named"]),
        &[(&b"sorted-key"[..], Some(&b"some value"[..]))],
    )
    .unwrap();
    assert_eq!(text, TEST_MAPPING.to_vec());
}

#[test]
fn tiny1_serializer_rejects_members_at_top() {
    let field = Element::Field(Field {
        src: b"f".to_vec(),
        dst: vec![],
        desc: Some(b"I".to_vec()),
        dst_desc: None,
        content: vec![],
    });
    let err = to_vec(&[field], b"a", &names(&["b"]), &[]).unwrap_err();
    assert!(matches!(err.kind, ErrorKind::Unsupported("field")));
}

#[test]
fn tiny1_roundtrip_written_classes() {
    let props = [(&b"zeta"[..], Some(&b"two words"[..])), (&b"alpha"[..], None)];
    let text = to_vec(&expected(), b"src", &names(&["dst", "extra"]), &props).unwrap();
    assert_eq!(from_slice_fast(&text).unwrap(), expected());
    assert_eq!(from_slice_indexed(&text).unwrap(), expected());
    let stream = StreamDeserializer::from_slice(&text).unwrap();
    assert_eq!(stream.src(), b"src");
    assert_eq!(stream.dst(), vec![&b"dst"[..], &b"extra"[..]]);
    assert_eq!(
        stream.properties(),
        vec![(&b"alpha"[..], None), (&b"zeta"[..], Some(&b"two words"[..]))]
    );
}

#[test]
fn tiny1_entry_error_carries_its_line() {
    let mut s = StreamDeserializer::from_slice(b"v1\ta\tb\nCLASS\tA\tB\nTHING\tx\n").unwrap();
    assert!(s.deserialize_next().unwrap().is_some());
    let err = s.deserialize_next().unwrap_err();
    assert_eq!(err.line, 3);
}

#[test]
fn tiny1_roundtrip_names_with_inner_spaces() {
    let classes = vec![Element::Class(Class {
        src: b"my class".to_vec(),
        dst: vec![b"your class".to_vec()],
        content: Vec::new(),
    })];
    let text = to_vec(&classes, b"name space", &names(&["other space"]), &[]).unwrap();
    assert_eq!(from_slice_fast(&text).unwrap(), classes);
    let stream = StreamDeserializer::from_slice(&text).unwrap();
    assert_eq!(stream.src(), b"name space");
    assert_eq!(stream.dst(), vec![&b"other space"[..]]);
}

#[test]
fn tiny1_members_before_their_class_are_grouped() {
    let file = b"v1\ta\tb\nFIELD\tB\tI\tf\tg\nCLASS\tA\tX\nCLASS\tB\tY\nMETHOD\tB\t()V\tm\tn\n";
    let elements = from_slice_indexed(file).unwrap();
    assert_eq!(elements.len(), 2);
    let Element::Class(b) = &elements[1] else { panic!() };
    assert_eq!(b.src, b"B");
    assert_eq!(b.content.len(), 2);
}

#[test]
fn tiny1_index_hands_out_borrowed_classes() {
    let file = b"v1\ta\tb\nFIELD\tB\tI\tf\tg\nCLASS\tB\tY\nMETHOD\tB\t()V\tm\tn\nFIELD\tC\tI\th\ti\nCLASS\tA\tX\n";
    let mut stream = StreamDeserializer::from_slice(file).unwrap();
    let index = Index::from_stream(&mut stream).unwrap();
    let mut d = index.as_deserializer();
    let a: ClassRef = d.deserialize_any_borrowed().unwrap();
    assert_eq!(a.src, b"A");
    assert_eq!(a.dst, &[b"X".to_vec()][..]);
    assert!(a.members.is_empty());
    let b = d.deserialize_any_borrowed().unwrap();
    assert_eq!(b.src, b"B");
    assert_eq!(b.members.len(), 2);
    assert!(!b.members[0].is_method);
    assert_eq!(b.members[0].src, b"f");
    assert_eq!(b.members[1].desc, b"()V");
    assert!(d.deserialize_any_borrowed().is_none());
}
