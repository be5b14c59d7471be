use oxigraph_succinct::chunks::{ChunkSplitter, ReadAction, BLOCK_SIZE};
use oxigraph_succinct::gammas::{parse_decimal, parse_gamma, Gamma, GammaError};
use oxigraph_succinct::parsing::{
    get_quads, keep_quads, parse_chunk, set_up_parser, ParseError,
};
use oxigraph_succinct::storage::{Operation, StorageError, SuccinctStorage, SuccinctStorageReader};
use oxigraph_succinct::terms::{
    GraphName, Literal, NamedOrBlankNode, Quad, Term, RDF_LANG_STRING, XSD_STRING,
};
use oxigraph_succinct::utils::{
    guessed_format, rdf_format_from_name, rdf_format_from_path, FormatError, RdfFormat,
};

const LINES: &str = "<http://a/s> <http://a/p> <http://a/o> .\n\
                     <http://a/s> <http://a/p> \"v\"@en .\n";

fn expected(graph_name: GraphName) -> Vec<Option<Quad>> {
    let objects = [
        Term::NamedNode("http://a/o".to_string()),
        Term::Literal(Literal {
            value: "v".to_string(),
            language: Some("en".to_string()),
            datatype: RDF_LANG_STRING.to_string(),
        }),
    ];
    objects
        .into_iter()
        .map(|object| {
            Some(Quad {
                subject: NamedOrBlankNode::NamedNode("http://a/s".to_string()),
                predicate: "http://a/p".to_string(),
                object,
                graph_name: graph_name.clone(),
            })
        })
        .collect()
}

#[test]
fn formats_have_extensions_and_media_types() {
    assert!(matches!(rdf_format_from_path(Some("nt")), Ok(RdfFormat::NTriples)));
    assert!(matches!(rdf_format_from_path(Some("TTL")), Ok(RdfFormat::Turtle)));
    assert!(matches!(rdf_format_from_path(Some("txt")), Ok(RdfFormat::NTriples)));
    assert!(matches!(rdf_format_from_path(Some("jsonld")), Ok(RdfFormat::JsonLd(_))));
    assert_eq!(rdf_format_from_path(Some("zip")).err(), Some(FormatError::UnknownExtension));
    assert_eq!(rdf_format_from_path(None).err(), Some(FormatError::NoExtension));
    assert!(matches!(rdf_format_from_name("nq"), Ok(RdfFormat::NQuads)));
    assert!(matches!(rdf_format_from_name("application/n-triples"), Ok(RdfFormat::NTriples)));
    assert!(matches!(rdf_format_from_name("text/turtle"), Ok(RdfFormat::Turtle)));
    assert!(matches!(rdf_format_from_name(" Text / x-N3 "), Ok(RdfFormat::N3)));
    assert!(matches!(rdf_format_from_name("text/plain"), Ok(RdfFormat::NTriples)));
    assert!(matches!(rdf_format_from_name("application/trig"), Ok(RdfFormat::TriG)));
    assert!(matches!(rdf_format_from_name("application/rdf+xml"), Ok(RdfFormat::RdfXml)));
    assert!(matches!(rdf_format_from_name("application/n-quads"), Ok(RdfFormat::NQuads)));
    assert!(matches!(rdf_format_from_name("application/activity+json"), Ok(RdfFormat::JsonLd(_))));
    assert!(matches!(rdf_format_from_name("text/turtle;charset=UTF-8"), Ok(RdfFormat::Turtle)));
    let unknown = Some(FormatError::UnknownName);
    assert_eq!(rdf_format_from_name("image/turtle").err(), unknown);
    assert_eq!(rdf_format_from_name("text/X-turtle").err(), unknown);
    assert_eq!(rdf_format_from_name("text/turtle;charset=latin1").err(), unknown);
    assert_eq!(rdf_format_from_name("application/zip").err(), Some(FormatError::UnknownName));
}

#[test]
fn json_ld_has_profiles() {
    let empty = match rdf_format_from_name("jsonld") {
        Ok(RdfFormat::JsonLd(profile)) => profile,
        _ => panic!("not JSON-LD"),
    };
    let name = "application/ld+json;profile=\"http://www.w3.org/ns/json-ld#streaming\"";
    match rdf_format_from_name(name) {
        Ok(RdfFormat::JsonLd(profile)) => assert!(profile != empty),
        _ => panic!("not JSON-LD"),
    }
}

#[test]
fn a_profile_that_is_a_lone_quote_is_unknown() {
    let unknown = Some(FormatError::UnknownName);
    assert_eq!(rdf_format_from_name("text/turtle;profile=\"").err(), unknown);
    assert_eq!(rdf_format_from_name("text/turtle; a=b ; profile = \" ;c=d").err(), unknown);
    assert!(rdf_format_from_name("text/turtle;profile=\"\"").is_ok());
    assert!(rdf_format_from_name("text/turtle;other=\"").is_ok());
    assert!(rdf_format_from_name("text/turtle;profile=\"a").is_ok());
}

#[test]
fn formats_are_guessed_from_extensions() {
    assert!(matches!(guessed_format(Some("nt"), None), Ok(RdfFormat::NTriples)));
    assert!(matches!(guessed_format(Some("gz"), Some("ttl")), Ok(RdfFormat::Turtle)));
    assert!(matches!(guessed_format(Some("nq"), Some("v1")), Ok(RdfFormat::NQuads)));
    let unknown = Some(FormatError::UnknownExtension);
    assert_eq!(guessed_format(Some("gz"), None).err(), unknown);
    assert_eq!(guessed_format(Some("gz"), Some("tar")).err(), unknown);
    assert_eq!(guessed_format(None, None).err(), Some(FormatError::NoExtension));
}

#[test]
fn lines_are_parsed() {
    let quads = get_quads(LINES.as_bytes(), RdfFormat::NTriples, None, None, false).unwrap();
    assert_eq!(quads, expected(GraphName::DefaultGraph));
    let graph = "http://a/g";
    let quads =
        get_quads(LINES.as_bytes(), RdfFormat::NTriples, None, Some(graph), false).unwrap();
    assert_eq!(quads, expected(GraphName::NamedNode(graph.to_string())));
    let parser = set_up_parser(RdfFormat::NQuads, None, None, true).unwrap();
    let quads = parse_chunk(&parser, b"_:x <http://a/p> \"1\" <http://a/g> .\n");
    assert_eq!(quads.len(), 1);
    let quad = quads[0].as_ref().unwrap();
    assert_eq!(quad.subject, NamedOrBlankNode::BlankNode("x".to_string()));
    assert_eq!(
        quad.object,
        Term::Literal(Literal {
            value: "1".to_string(),
            language: None,
            datatype: XSD_STRING.to_string(),
        })
    );
    assert_eq!(quad.graph_name, GraphName::NamedNode("http://a/g".to_string()));
}

#[test]
fn other_formats_have_a_base() {
    let quads =
        get_quads(b"<s> <p> <o> .", RdfFormat::Turtle, Some("http://a/"), None, false).unwrap();
    assert_eq!(quads, expected(GraphName::DefaultGraph)[..1].to_vec());
    assert_eq!(
        get_quads(b"", RdfFormat::Turtle, Some("not an iri"), None, false).err(),
        Some(ParseError::InvalidBase)
    );
    assert_eq!(
        get_quads(b"", RdfFormat::Turtle, None, Some("not an iri"), false).err(),
        Some(ParseError::InvalidGraphName)
    );
}

#[test]
fn lines_that_cannot_be_parsed_are_skipped_if_lenient() {
    let text = format!("{LINES}<http://a/s> oops .\n");
    let quads = get_quads(text.as_bytes(), RdfFormat::NTriples, None, None, true).unwrap();
    assert!(quads.contains(&None));
    assert_eq!(keep_quads(quads.clone(), false), Err(ParseError::Syntax));
    let kept: Vec<Option<Quad>> =
        keep_quads(quads, true).unwrap().into_iter().map(Some).collect();
    assert_eq!(kept, expected(GraphName::DefaultGraph));
}

#[test]
fn blocks_are_split_into_whole_lines() {
    let mut splitter = ChunkSplitter::new(&RdfFormat::NTriples).unwrap();
    assert_eq!(splitter.next_read(), ReadAction::Block(BLOCK_SIZE));
    assert_eq!(splitter.on_block(b"<a> .\n<b>"), Some(b"<a> .\n".to_vec()));
    assert_eq!(splitter.next_read(), ReadAction::Block(BLOCK_SIZE - 3));
    assert_eq!(splitter.on_block(b" <c>"), Some(vec![]));
    assert_eq!(splitter.on_block(b" .\n"), Some(b"<b> <c> .\n".to_vec()));
    assert_eq!(splitter.on_block(b""), None);
}

#[test]
fn an_unfinished_last_line_is_a_chunk() {
    let mut splitter = ChunkSplitter::new(&RdfFormat::NQuads).unwrap();
    assert_eq!(splitter.on_block(b"<a> ."), Some(vec![]));
    assert_eq!(splitter.on_block(b""), Some(b"<a> .".to_vec()));
    assert_eq!(splitter.on_block(b""), None);
}

#[test]
fn a_line_longer_than_a_block_is_a_chunk() {
    let mut splitter = ChunkSplitter::new(&RdfFormat::NQuads).unwrap();
    let block = vec![b'<'; BLOCK_SIZE];
    assert_eq!(splitter.on_block(&block), Some(vec![]));
    assert_eq!(splitter.next_read(), ReadAction::Line);
    let chunk = splitter.on_line(b"> .\n");
    assert_eq!(chunk.len(), BLOCK_SIZE + 4);
    assert_eq!(splitter.next_read(), ReadAction::Block(BLOCK_SIZE));
}

#[test]
fn any_lines_are_split() {
    assert_eq!(
        ChunkSplitter::new(&RdfFormat::Turtle).err(),
        Some(ParseError::UnsupportedFormat)
    );
    let line = b"_:a <http://e/p> <http://e/o> .\n";
    let mut splitter = ChunkSplitter::new(&RdfFormat::NTriples).unwrap();
    assert_eq!(splitter.on_block(line), Some(line.to_vec()));
    let parser = set_up_parser(RdfFormat::NTriples, None, None, false).unwrap();
    let quads = parse_chunk(&parser, line);
    assert_eq!(
        quads,
        vec![Some(Quad {
            subject: NamedOrBlankNode::BlankNode("a".to_string()),
            predicate: "http://e/p".to_string(),
            object: Term::NamedNode("http://e/o".to_string()),
            graph_name: GraphName::DefaultGraph,
        })]
    );
    assert_eq!(get_quads(line, RdfFormat::NTriples, None, None, false), Ok(quads));
    assert_eq!(splitter.on_block(b"# a comment\n"), Some(b"# a comment\n".to_vec()));
    assert_eq!(parse_chunk(&parser, b"# a comment\n"), vec![]);
    assert_eq!(splitter.on_block(b"<a> .\0\n"), Some(b"<a> .\0\n".to_vec()));
    assert_eq!(splitter.on_block(b""), None);
}

#[test]
fn a_base_does_not_change_how_lines_are_parsed() {
    let line = b"<http://e/s> <http://e/p> <http://e/o> .\n";
    let with = get_quads(line, RdfFormat::NTriples, Some("http://base/"), None, false);
    assert_eq!(with, get_quads(line, RdfFormat::NTriples, None, None, false));
    // nor does it have to be an IRI
    assert_eq!(with, get_quads(line, RdfFormat::NTriples, Some("base"), None, false));
    assert_eq!(
        get_quads(b"<s> <p> <o> .", RdfFormat::Turtle, Some("base"), None, false),
        Err(ParseError::InvalidBase)
    );
    let quads = get_quads(b"<s> <p> <o> .", RdfFormat::Turtle, Some("http://base/"), None, false);
    let quad = quads.unwrap().remove(0).unwrap();
    assert_eq!(quad.predicate, "http://base/p");
}

#[test]
fn blank_nodes_without_names_are_named() {
    let quads = get_quads(b"[] <http://e/p> [] .", RdfFormat::Turtle, None, None, false).unwrap();
    assert_eq!(quads.len(), 1);
    let quad = quads[0].clone().unwrap();
    assert!(matches!(quad.subject, NamedOrBlankNode::BlankNode(_)));
    assert!(matches!(quad.object, Term::BlankNode(_)));
}

#[test]
fn resolution_parameters_are_read() {
    assert_eq!(parse_gamma("-0"), Ok(Gamma { coefficient: 1, exponent: 0 }));
    assert_eq!(parse_gamma("-10"), Ok(Gamma { coefficient: 1, exponent: 10 }));
    assert_eq!(parse_gamma("3-4"), Ok(Gamma { coefficient: 3, exponent: 4 }));
    assert_eq!(parse_gamma("+3-+04"), Ok(Gamma { coefficient: 3, exponent: 4 }));
    assert_eq!(parse_gamma("34"), Err(GammaError::Dashes));
    assert_eq!(parse_gamma("3-4-5"), Err(GammaError::Dashes));
    assert_eq!(parse_gamma("3-"), Err(GammaError::Number));
    assert_eq!(parse_gamma("x-1"), Err(GammaError::Number));
    assert_eq!(parse_decimal(b"18446744073709551615"), Some(usize::MAX));
    assert_eq!(parse_decimal(b"18446744073709551616"), None);
    assert_eq!(parse_decimal(b""), None);
    assert_eq!(parse_decimal(b"+"), None);
}

#[test]
fn the_backend_has_no_operations_yet() {
    assert_eq!(
        SuccinctStorage::open("db").err(),
        Some(StorageError::NotYetImplemented(Operation::Open))
    );
    let storage = SuccinctStorage {};
    assert_eq!(
        storage.snapshot().err(),
        Some(StorageError::NotYetImplemented(Operation::Snapshot))
    );
    let reader = SuccinctStorageReader { storage: &storage };
    assert_eq!(reader.len(), Err(StorageError::NotYetImplemented(Operation::Len)));
    assert_eq!(reader.is_empty(), Err(StorageError::NotYetImplemented(Operation::IsEmpty)));
    assert_eq!(reader.validate(), Err(StorageError::NotYetImplemented(Operation::Validate)));
    assert_eq!(
        reader.contains_str(1),
        Err(StorageError::NotYetImplemented(Operation::ContainsStr))
    );
}
