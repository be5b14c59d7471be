use oxigraph_succinct::terms::{GraphName, Literal, NamedOrBlankNode, Quad, Term, XSD_STRING};
use oxigraph_succinct::terms_mphf::TermHasher;
use oxigraph_succinct::terms_store::TermStoreConfiguration;
use oxigraph_succinct::zstd_store::{
    build_terms_mph, deduplicate_terms, index_terms, write_unique_terms,
};
use oxigraph_succinct::zstd_terms::{
    index_zstd_file, read_zstd_file, write_zstd_file, ZstdError,
};
use oxigraph_succinct::strings::StringsError;

fn strings(texts: &[&str]) -> Vec<Vec<u8>> {
    texts.iter().map(|s| s.as_bytes().to_vec()).collect()
}

fn quad(subject: &str, object: Term, graph_name: GraphName) -> Quad {
    Quad {
        subject: NamedOrBlankNode::BlankNode(subject.to_string()),
        predicate: "p".to_string(),
        object,
        graph_name,
    }
}

fn literal(value: &str, language: Option<&str>, datatype: &str) -> Term {
    Term::Literal(Literal {
        value: value.to_string(),
        language: language.map(|l| l.to_string()),
        datatype: datatype.to_string(),
    })
}

#[test]
fn compressed_strings_are_read_back() {
    let texts = strings(&["", "a", "aa", "b", "c", "d", "e"]);
    let file = write_zstd_file(&texts, 0, 7, 3).unwrap();
    assert_eq!(file[..4], [0x28, 0xb5, 0x2f, 0xfd]);
    assert_eq!(read_zstd_file(&file), Ok(texts.clone()));
    let file = write_zstd_file(&texts, 2, 5, 2).unwrap();
    assert_eq!(read_zstd_file(&file), Ok(texts[2..5].to_vec()));
}

#[test]
fn frames_of_compressed_files_are_counted() {
    let texts = strings(&["", "a", "aa", "b", "c", "d", "e"]);
    let file = write_zstd_file(&texts, 0, 7, 3).unwrap();
    assert!(index_zstd_file(&file, 7, 3).is_ok());
    assert_eq!(index_zstd_file(&file, 10, 3).err(), Some(ZstdError::FewerFrames));
    assert_eq!(index_zstd_file(&file, 6, 3).err(), Some(ZstdError::MoreFrames));
    assert_eq!(index_zstd_file(&[1, 2, 3], 1, 3).err(), Some(ZstdError::Decompression));
}

#[test]
fn compressed_files_have_to_be_sorted() {
    let texts = strings(&["b", "a"]);
    let file = write_zstd_file(&texts, 0, 2, 3).unwrap();
    assert_eq!(read_zstd_file(&file), Err(ZstdError::Unsorted));
    let texts = strings(&["a", "a"]);
    let file = write_zstd_file(&texts, 0, 2, 1).unwrap();
    assert_eq!(read_zstd_file(&file), Err(ZstdError::Unsorted));
}

#[test]
fn corrupted_files_are_refused() {
    assert_eq!(read_zstd_file(b"not compressed at all"), Err(ZstdError::Decompression));
    // an empty file has no strings
    assert_eq!(read_zstd_file(&[]), Ok(vec![]));
    // what a frame holds ends within a string
    let mut out = Vec::new();
    oxigraph_succinct::strings::write_length_prefixed_string(&mut out, b"abc").unwrap();
    out.pop();
    let frame = zstd::stream::encode_all(&out[..], 1).unwrap();
    assert_eq!(read_zstd_file(&frame), Err(ZstdError::Strings(StringsError::Truncated)));
}

#[test]
fn texts_of_terms_are_stored() {
    let chunks = vec![
        vec![quad("s", literal("a\"b\n\u{1f}", None, XSD_STRING), GraphName::DefaultGraph)],
        vec![
            quad("s", literal("a", Some("en"), ""), GraphName::BlankNode("g".to_string())),
            quad("s", literal("1", None, "d:int"), GraphName::NamedNode("n".to_string())),
            quad("s", Term::NamedNode("n".to_string()), GraphName::DefaultGraph),
        ],
    ];
    let escaped = "\"a\\\"b\\n\\u001F\"";
    let expected = strings(&["", "\"1\"^^<d:int>", "\"a\"@en", escaped, "g", "n", "p", "s"]);
    assert_eq!(deduplicate_terms(&chunks).unwrap().drain_boxed_bytes(), expected);
    let (config, files) = write_unique_terms(&chunks).unwrap();
    assert_eq!(config.num_terms, 8);
    assert_eq!(files.len(), 1);
    assert_eq!(read_zstd_file(&files[0]), Ok(expected.clone()));
    assert_eq!(index_terms(&config, files.clone()).unwrap().len(), 1);
    let mph = build_terms_mph(&config, files).unwrap();
    for (id, text) in expected.iter().enumerate() {
        assert_eq!(mph.hash_bytes(text), Ok(id));
    }
}

#[test]
fn texts_that_are_too_long_are_refused() {
    let long = "x".repeat(104_857_592);
    let chunks = vec![vec![quad(&long, Term::NamedNode("n".to_string()), GraphName::DefaultGraph)]];
    assert_eq!(write_unique_terms(&chunks).err(), Some(ZstdError::TermTooLong));
}

#[test]
fn compressed_files_have_to_be_as_many_as_announced() {
    let config = TermStoreConfiguration {
        terms_per_frame: 2,
        frames_per_file: 2,
        num_terms: 3,
        dictionary_filename: None,
    };
    assert_eq!(index_terms(&config, vec![]).err(), Some(ZstdError::WrongNumberOfFiles));
    assert_eq!(build_terms_mph(&config, vec![]).err(), Some(ZstdError::WrongNumberOfFiles));
    let texts = strings(&["a", "b", "c", "d"]);
    let file = write_zstd_file(&texts, 0, 4, 2).unwrap();
    assert_eq!(build_terms_mph(&config, vec![file]).err(), Some(ZstdError::TooManyTerms));
    let file = write_zstd_file(&texts, 0, 2, 2).unwrap();
    assert_eq!(index_terms(&config, vec![file]).err(), Some(ZstdError::FewerFrames));
}
