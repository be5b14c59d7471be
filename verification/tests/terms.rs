use oxigraph_succinct::dictionary::{index_datatypes, TermDictionary};
use oxigraph_succinct::strings::write_length_prefixed_string;
use oxigraph_succinct::terms::{
    copy_term, deserialize_graph_name, deserialize_term, node_to_term, serialize_graph_name,
    serialize_named_node, serialize_named_or_blank_node, serialize_term, term_eq, GraphName,
    Literal, NamedOrBlankNode, Term, TermError, RDF_LANG_STRING, XSD_STRING,
};
use oxigraph_succinct::terms_store::TermsError;

fn named(iri: &str) -> Term {
    Term::NamedNode(iri.to_string())
}

fn blank(id: &str) -> Term {
    Term::BlankNode(id.to_string())
}

fn literal(value: &str, language: Option<&str>, datatype: &str) -> Term {
    Term::Literal(Literal {
        value: value.to_string(),
        language: language.map(|l| l.to_string()),
        datatype: datatype.to_string(),
    })
}

fn dictionary(datatypes: &[&str]) -> TermDictionary {
    let mut bytes = Vec::new();
    for datatype in datatypes {
        write_length_prefixed_string(&mut bytes, datatype.as_bytes()).unwrap();
    }
    let index = index_datatypes(&bytes).unwrap();
    TermDictionary::mmap("dict".to_string(), bytes, index).unwrap()
}

#[test]
fn terms_start_with_their_type() {
    assert_eq!(serialize_term(&named("a"), None).unwrap(), [1, b'a']);
    assert_eq!(serialize_term(&blank("b0"), None).unwrap(), [2, b'b', b'0']);
    assert_eq!(serialize_term(&literal("é", None, XSD_STRING), None).unwrap(), [4, 0xc3, 0xa9]);
    assert_eq!(
        serialize_term(&literal("chat", Some("fr"), RDF_LANG_STRING), None).unwrap(),
        [5, b'f', b'r', b'c', b'h', b'a', b't', 0, 2]
    );
    assert_eq!(
        serialize_term(&literal("1", None, "d:i"), None).unwrap(),
        [6, b'1', b'd', b':', b'i', 0, 0, 0, 0, 0, 0, 0, 3]
    );
}

#[test]
fn terms_are_read_back() {
    for term in [
        named("http://example.com/"),
        blank("x"),
        literal("", None, XSD_STRING),
        literal("héhé", None, XSD_STRING),
        literal("chat", Some("fr-CA"), RDF_LANG_STRING),
        literal("", Some("en"), RDF_LANG_STRING),
        literal("1", None, "http://www.w3.org/2001/XMLSchema#integer"),
        literal("", None, "d:int"),
        literal("x", None, ""),
    ] {
        let bytes = serialize_term(&term, None).unwrap();
        let read = deserialize_term(&bytes, None).unwrap();
        assert_eq!(read, term);
        assert!(term_eq(&read, &term));
        assert_eq!(copy_term(&term), term);
    }
}

#[test]
fn different_terms_have_different_bytes() {
    let terms = [
        named("ab"),
        blank("ab"),
        literal("ab", None, XSD_STRING),
        literal("b", Some("a"), RDF_LANG_STRING),
        literal("", Some("ab"), RDF_LANG_STRING),
        literal("ab", None, "c"),
        literal("a", None, "bc"),
        literal("", None, "abc"),
    ];
    for (i, a) in terms.iter().enumerate() {
        for (j, b) in terms.iter().enumerate() {
            let same = serialize_term(a, None).unwrap() == serialize_term(b, None).unwrap();
            assert_eq!(same, i == j);
        }
    }
}

#[test]
fn the_first_datatype_of_a_dictionary_is_a_number() {
    let dict = dictionary(&["d:int"]);
    assert_eq!(dict.get_name(), "dict");
    assert_eq!(dict.get_datatype_id("d:int"), Ok(Some(0)));
    assert_eq!(dict.get_datatype_id("d:other"), Ok(None));
    assert_eq!(dict.get_datatype(0), Ok("d:int".to_string()));
    assert_eq!(dict.get_datatype(1), Ok("d:int".to_string()));
    assert_eq!(dict.get_datatype(2), Err(TermError::InvalidDatatypeId));
    let term = literal("42", None, "d:int");
    let bytes = serialize_term(&term, Some(&dict)).unwrap();
    assert_eq!(bytes, [7, b'4', b'2', 0, 0, 0, 0]);
    assert_eq!(deserialize_term(&bytes, Some(&dict)).unwrap(), term);
}

#[test]
fn numbers_of_datatypes_are_halfway_through_the_list() {
    let dict = dictionary(&["d:a", "d:b", "d:c", "d:d"]);
    assert_eq!(dict.get_datatype_id("d:a"), Ok(Some(2)));
    assert_eq!(dict.get_datatype_id("d:b"), Ok(None));
    let term = literal("x", None, "d:a");
    let bytes = serialize_term(&term, Some(&dict)).unwrap();
    assert_eq!(bytes, [7, b'x', 0, 0, 0, 2]);
    assert_eq!(deserialize_term(&bytes, Some(&dict)).unwrap(), term);
}

#[test]
fn truncated_dictionaries_are_refused() {
    assert_eq!(
        index_datatypes(&[5, 0, 0, 0, 1]).err(),
        Some(TermsError::Term(TermError::TruncatedDictionary))
    );
    let empty = dictionary(&[]);
    assert_eq!(empty.get_datatype_id("d:a"), Err(TermError::TruncatedDictionary));
}

#[test]
fn invalid_terms_are_refused() {
    assert_eq!(deserialize_term(&[], None), Err(TermError::Empty));
    assert_eq!(deserialize_term(&[3], None), Err(TermError::UnknownTag));
    assert_eq!(deserialize_term(&[1, 0xff], None), Err(TermError::NonUtf8));
    assert_eq!(deserialize_term(&[5], None), Err(TermError::TooShort));
    assert_eq!(deserialize_term(&[5, b'f', 0, 2], None), Err(TermError::InconsistentLength));
    assert_eq!(deserialize_term(&[6, 0, 0], None), Err(TermError::TooShort));
    assert_eq!(deserialize_term(&[6, b'a', 0, 0, 0, 0, 0, 0, 0, 9], None), Err(TermError::InconsistentLength));
    assert_eq!(deserialize_term(&[7, b'a', 0, 0, 0, 0], None), Err(TermError::NoDictionary));
    let dict = dictionary(&["d:a"]);
    assert_eq!(
        deserialize_term(&[7, b'a', 0, 0, 0, 9], Some(&dict)),
        Err(TermError::InvalidDatatypeId)
    );
    assert_eq!(
        serialize_term(&literal("a", Some("en"), XSD_STRING), None),
        Err(TermError::LanguageAndDatatype)
    );
    let language = "a".repeat(65536);
    assert_eq!(
        serialize_term(&literal("a", Some(&language), RDF_LANG_STRING), None),
        Err(TermError::LanguageTooLong)
    );
}

#[test]
fn graph_names_are_read_back() {
    for (name, bytes) in [
        (GraphName::DefaultGraph, vec![]),
        (GraphName::NamedNode("g".to_string()), vec![1, b'g']),
        (GraphName::BlankNode("g".to_string()), vec![2, b'g']),
    ] {
        assert_eq!(serialize_graph_name(&name).unwrap(), bytes);
        assert_eq!(deserialize_graph_name(&bytes).unwrap(), name);
    }
    assert_eq!(deserialize_graph_name(&[4, b'x']), Err(TermError::UnknownTag));
    assert_eq!(deserialize_graph_name(&[1, 0x80]), Err(TermError::NonUtf8));
}

#[test]
fn nodes_are_written_as_terms() {
    let node = NamedOrBlankNode::BlankNode("b".to_string());
    assert_eq!(serialize_named_or_blank_node(&node), [2, b'b']);
    assert_eq!(node_to_term(&node), blank("b"));
    let node = NamedOrBlankNode::NamedNode("n".to_string());
    assert_eq!(serialize_named_or_blank_node(&node), serialize_named_node("n"));
    assert_eq!(node_to_term(&node), named("n"));
    assert!(!term_eq(&named("b"), &blank("b")));
}
